//! Evaluation of arithmetic expressions over exact rational numbers.
//!
//! Source text is turned into tokens by [`lexer::Lexer`], tokens into a tree
//! by the precedence-climbing [`parser::Parser`], and the tree into a value
//! with a trace of the steps taken by [`evaluator::evaluate`].

pub mod rational;
pub mod text;
pub mod syntax;
pub mod lexer;
pub mod parser;
pub mod evaluator;
