//! Queries: their syntax trees and what the engine takes from them.
pub mod ast;
pub mod columns;
pub mod query;
pub mod read;
pub mod read_laws;
pub mod tree;
pub mod same;
