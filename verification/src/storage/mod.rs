//! Column storage: encodings, columns, tables and their indexes.
pub mod column;
pub mod column_blocks;
pub mod column_staging;
pub mod column_stream;
pub mod database;
pub mod demo;
pub mod load;
pub mod load_laws;
pub mod pod;
pub mod stream_laws;
pub mod table;
pub mod table_laws;
pub mod utf8_col;
pub mod zones;
