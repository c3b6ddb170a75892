//! A pipeline calculator for random draws: the parser for pipelines such as
//! `seed(42) | gauss(0, 1) | int`, the validation and dispatch of each stage,
//! and the seeded generator that the stages draw from.
pub mod decimal;
pub mod expr;
pub mod parser;
pub mod eval;
pub mod prng;
