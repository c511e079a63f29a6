//! A fixed-point infix calculator: numbers carry eight decimal places and are
//! stored as `i128` values scaled by `SCALE`.
use vstd::prelude::*;

pub mod fixed;
pub mod math_operations;
pub mod ops;
pub mod math_proccessor;
pub mod text;
pub mod parser;
pub mod calculator;
pub mod laws;
