//! A small evaluator for lines of integer addition and subtraction,
//! built from a pull-based lexer and a grammar-driven fold.
pub mod token;
pub mod model;
pub mod interpreter;
pub mod laws;
