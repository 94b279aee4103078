//! The front end for the small C-like language: tokens, lexer and parser.

pub mod ast;
pub mod lexer;
pub mod parse;
