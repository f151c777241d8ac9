//! Expressions: dates, text matching and evaluation on the rows of a table.
pub mod eval;
pub mod laws;
pub mod matching;
pub mod like_laws;
pub mod predicate_laws;
pub mod same_laws;
pub mod time;
