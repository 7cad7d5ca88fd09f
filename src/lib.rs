//! An integer calculator: a lexer that turns text into tokens, a
//! recursive-descent parser that builds an expression tree, and a
//! tree-walking evaluator, each stated over a model and proved against it.

pub mod evaluate;
pub mod lexer;
pub mod parser;
pub mod token;
