//! Untyped lambda calculus: a lexer, a recursive-descent parser, a term model
//! with a canonical rendering, and a beta-reducing evaluator.
pub mod ast;
pub mod eval;
pub mod lexer;
pub mod parser;
pub mod syntax;
pub mod token;
