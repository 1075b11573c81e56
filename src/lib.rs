//! LALR(1) parsing runtime: a table-driven driver with an incremental
//! (partial) semantic-action engine, and a planner for recursive-ascent
//! parsers generated from the same tables.

pub mod common;
pub mod tables;
pub mod machine;
pub mod parser;
pub mod generator;
pub mod emit;
