//! The errors a compilation can surface.

use vstd::prelude::*;

use crate::parser::ast::Token;
use crate::src::Source;
use crate::text::push_str;

verus! {

/// What went wrong: input could not be read, a stretch of source failed
/// to lex, or the token stream failed to parse.
#[derive(Debug)]
pub enum CompilerError {
    IoError(String),
    ParseError(String),
    Lexer(Source, Token),
}

impl CompilerError {
    /// The diagnostic text for this error.
    pub fn message(&self) -> (r: String)
        ensures
            match self {
                CompilerError::IoError(e) => r@ == "I/O error: "@ + e@,
                CompilerError::ParseError(m) => r@ == "Parse error: "@ + m@,
                CompilerError::Lexer(_, tok) => r@ == "Lexical error at '"@ + tok.value@ + "'"@,
            },
    {
        let mut out = String::new();
        match self {
            CompilerError::IoError(e) => {
                push_str(&mut out, "I/O error: ");
                push_str(&mut out, e.as_str());
            },
            CompilerError::ParseError(m) => {
                push_str(&mut out, "Parse error: ");
                push_str(&mut out, m.as_str());
            },
            CompilerError::Lexer(_, tok) => {
                push_str(&mut out, "Lexical error at '");
                push_str(&mut out, tok.value.as_str());
                push_str(&mut out, "'");
            },
        }
        out
    }
}

} // verus!
