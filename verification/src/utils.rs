//! Text utilities.
pub mod lines;
pub mod string;
