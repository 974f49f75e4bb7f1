//! Front end for a line-oriented pseudocode language: a lexer that turns
//! source text into a located token stream, and a recursive-descent parser
//! with operator-precedence expression handling that builds an abstract
//! syntax tree inside an index-based arena.

pub mod arena;
pub mod expr;
pub mod helpers;
pub mod lexer;
pub mod parser;
pub mod token;
