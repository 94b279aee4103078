//! Tokens and the syntax tree of the small C-like source language.

use vstd::prelude::*;

verus! {

/// Why a stretch of input failed to lex.
#[derive(Debug, Clone, Copy, PartialEq, Eq, Structural)]
pub enum LexError {
    InvalidIdentifier,
    InvalidConstant,
    Unknown,
}

impl LexError {
    /// The diagnostic text for this error.
    pub fn message(&self) -> (r: &'static str)
        ensures
            *self is InvalidIdentifier ==> r@ == "Invalid identifier"@,
            *self is InvalidConstant ==> r@ == "Invalid constant"@,
            *self is Unknown ==> r@ == ""@,
    {
        match self {
            LexError::InvalidIdentifier => "Invalid identifier",
            LexError::InvalidConstant => "Invalid constant",
            LexError::Unknown => "",
        }
    }
}

/// The kind of one token.
#[derive(Debug, Clone, Copy, PartialEq, Eq, Structural)]
pub enum TokenKind {
    Decrement,
    Negate,
    Complement,
    LParen,
    RParen,
    LBrace,
    RBrace,
    Semicolon,
    Void,
    Int,
    Return,
    Identifier,
    Constant,
    Error(LexError),
}

/// One token: its kind, its literal text, and the offset of its first
/// character in the source.
#[derive(Debug, Clone)]
pub struct Token {
    pub kind: TokenKind,
    pub value: String,
    pub offset: usize,
}

/// The mathematical shadow of a [`Token`].
pub struct TokenModel {
    pub kind: TokenKind,
    pub value: Seq<char>,
    pub offset: int,
}

impl View for Token {
    type V = TokenModel;

    open spec fn view(&self) -> TokenModel {
        TokenModel { kind: self.kind, value: self.value@, offset: self.offset as int }
    }
}

impl DeepView for Token {
    type V = TokenModel;

    open spec fn deep_view(&self) -> TokenModel {
        self.view()
    }
}

/// A unary operator.
#[derive(Debug, Clone, Copy, PartialEq, Eq, Structural)]
pub enum UnaryOp {
    Complement,
    Negate,
}

/// An expression: a literal constant or a unary operation over another
/// expression.
#[derive(Debug)]
pub enum Expr {
    Constant(u32),
    Unary(UnaryOp, Box<Expr>),
}

/// A statement; the current language has only `return`.
#[derive(Debug)]
pub enum Stmt {
    Return(Expr),
}

/// A declaration: a function with its name and body.
#[derive(Debug)]
pub enum Decl {
    Function(String, Box<Stmt>),
}

/// A whole program: one function declaration.
#[derive(Debug)]
pub struct Program {
    pub body: Decl,
}

/// The mathematical shadow of a [`Decl`].
pub struct DeclModel {
    pub name: Seq<char>,
    pub body: Stmt,
}

/// The mathematical shadow of a [`Program`].
pub struct ProgramModel {
    pub body: DeclModel,
}

impl View for Decl {
    type V = DeclModel;

    open spec fn view(&self) -> DeclModel {
        match self {
            Decl::Function(name, body) => DeclModel { name: name@, body: *(*body) },
        }
    }
}

impl View for Program {
    type V = ProgramModel;

    open spec fn view(&self) -> ProgramModel {
        ProgramModel { body: self.body@ }
    }
}

} // verus!
