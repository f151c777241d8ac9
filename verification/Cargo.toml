[package]
name = "coldrun"
version = "0.1.0"
edition = "2021"
publish = false

[dependencies]
ahash = "0.8"
anyhow = "1"
arrow = "54"
chrono = "0.4"
clap = { version = "4", features = ["derive"] }
lz4_flex = "0.11"
memchr = "2"
memmap2 = "0.9"
parquet = "54"
rayon = "1"
regex = "1"
serde = { version = "1", features = ["derive"] }
serde_json = "1"
sqlparser = { version = "0.53", features = ["serde"] }
thiserror = "1"
tracing-subscriber = { version = "0.3", features = ["env-filter"] }
