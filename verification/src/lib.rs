//! Coldrun: a small columnar SQL engine.
//!
//! Storage formats, query shapes, predicate evaluation and aggregation kernels
//! live here as verified code; files, sockets and the command line live in the
//! application around it.
pub mod error;
pub mod exec;
pub mod expr;
pub mod protocol;
pub mod sql;
pub mod storage;
pub mod text;
