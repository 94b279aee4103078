//! The parser: a single-shot recursive descent over the token stream,
//! reporting the first structural mismatch.

use vstd::prelude::*;

use super::ast::{
    Decl, DeclModel, Expr, Program, ProgramModel, Stmt, Token, TokenKind, TokenModel, UnaryOp,
};
use crate::text::{all_digits, dec_val, parse_u32, push_str};

verus! {

/// What a parsing step yields: the parsed piece, or the first mismatch,
/// described.
pub type ParseResult<T> = Result<T, String>;

/// The constant a token spells: its digits' value, if the text is all
/// digits and the value fits.
pub open spec fn spec_parse_const(value: Seq<char>) -> Option<u32> {
    if value.len() >= 1 && all_digits(value) && dec_val(value) <= u32::MAX {
        Some(dec_val(value) as u32)
    } else {
        None
    }
}

/// What parsing an expression at `pos` yields: the expression and the
/// position right after it, or nothing on a mismatch.
pub open spec fn spec_parse_expr(toks: Seq<TokenModel>, pos: int) -> Option<(Expr, int)>
    recommends
        0 <= pos <= toks.len(),
    decreases toks.len() - pos,
{
    if pos < 0 || pos >= toks.len() {
        None
    } else {
        let k = toks[pos].kind;
        if k is Constant {
            match spec_parse_const(toks[pos].value) {
                Some(v) => Some((Expr::Constant(v), pos + 1)),
                None => None,
            }
        } else if k is Negate || k is Complement {
            let op = if k is Negate {
                UnaryOp::Negate
            } else {
                UnaryOp::Complement
            };
            match spec_parse_expr(toks, pos + 1) {
                Some((inner, rest)) => Some((Expr::Unary(op, Box::new(inner)), rest)),
                None => None,
            }
        } else if k is LParen {
            match spec_parse_expr(toks, pos + 1) {
                Some((inner, rest)) => {
                    if 0 <= rest < toks.len() && toks[rest].kind is RParen {
                        Some((inner, rest + 1))
                    } else {
                        None
                    }
                },
                None => None,
            }
        } else {
            None
        }
    }
}

/// Parsing an expression moves the position forward, never past the end.
pub proof fn lemma_spec_parse_expr(toks: Seq<TokenModel>, pos: int)
    requires
        0 <= pos <= toks.len(),
    ensures
        match spec_parse_expr(toks, pos) {
            Some((e, rest)) => pos < rest <= toks.len(),
            None => true,
        },
    decreases toks.len() - pos,
{
    if 0 <= pos < toks.len() {
        lemma_spec_parse_expr(toks, pos + 1);
    }
}

/// What parsing a statement at `pos` yields: `return <expr> ;`.
pub open spec fn spec_parse_statement(toks: Seq<TokenModel>, pos: int) -> Option<(Stmt, int)>
    recommends
        0 <= pos <= toks.len(),
{
    if 0 <= pos < toks.len() && toks[pos].kind is Return {
        match spec_parse_expr(toks, pos + 1) {
            Some((e, rest)) => {
                if rest < toks.len() && toks[rest].kind is Semicolon {
                    Some((Stmt::Return(e), rest + 1))
                } else {
                    None
                }
            },
            None => None,
        }
    } else {
        None
    }
}

/// What parsing a function at `pos` yields:
/// `int <name> ( void ) { <statement> }`.
pub open spec fn spec_parse_function(toks: Seq<TokenModel>, pos: int) -> Option<(DeclModel, int)>
    recommends
        0 <= pos <= toks.len(),
{
    if 0 <= pos && pos + 6 <= toks.len() && toks[pos].kind is Int && toks[pos + 1].kind is Identifier
        && toks[pos + 2].kind is LParen && toks[pos + 3].kind is Void && toks[pos
        + 4].kind is RParen && toks[pos + 5].kind is LBrace {
        match spec_parse_statement(toks, pos + 6) {
            Some((body, rest)) => {
                if rest < toks.len() && toks[rest].kind is RBrace {
                    Some((DeclModel { name: toks[pos + 1].value, body }, rest + 1))
                } else {
                    None
                }
            },
            None => None,
        }
    } else {
        None
    }
}

/// What parsing a whole program yields: one function, with no tokens
/// left over.
pub open spec fn spec_parse_program(toks: Seq<TokenModel>) -> Option<ProgramModel> {
    match spec_parse_function(toks, 0) {
        Some((f, rest)) => {
            if rest == toks.len() {
                Some(ProgramModel { body: f })
            } else {
                None
            }
        },
        None => None,
    }
}

/// A recursive-descent parser over a token list.
pub struct Parser<'a> {
    pub tokens: &'a Vec<Token>,
    pub pos: usize,
}

impl<'a> Parser<'a> {
    /// The parser's position stays inside the token list.
    pub open spec fn wf(&self) -> bool {
        self.pos <= self.tokens@.len()
    }

    /// A parser at the front of `tokens`.
    pub fn new(tokens: &'a Vec<Token>) -> (p: Parser<'a>)
        ensures
            p.wf(),
            p.tokens == tokens,
            p.pos == 0,
    {
        Parser { tokens, pos: 0 }
    }

    /// Consumes the next token; fails at the end of the stream and on an
    /// error token.
    pub fn take(&mut self) -> (r: ParseResult<Token>)
        requires
            old(self).wf(),
        ensures
            final(self).wf(),
            final(self).tokens == old(self).tokens,
            match r {
                Ok(tok) => {
                    &&& old(self).pos < old(self).tokens@.len()
                    &&& tok@ == old(self).tokens@[old(self).pos as int]@
                    &&& !(tok@.kind is Error)
                    &&& final(self).pos == old(self).pos + 1
                },
                Err(_) => {
                    &&& (old(self).pos >= old(self).tokens@.len() || old(self).tokens@[old(
                        self,
                    ).pos as int]@.kind is Error)
                    &&& final(self).pos == (if old(self).pos < old(self).tokens@.len() {
                        old(self).pos + 1
                    } else {
                        old(self).pos as int
                    })
                },
            },
    {
        if self.pos >= self.tokens.len() {
            let mut m = String::new();
            push_str(&mut m, "Unexpectedly reach end of file");
            return Err(m);
        }
        let tok = &self.tokens[self.pos];
        self.pos = self.pos + 1;
        match tok.kind {
            TokenKind::Error(e) => {
                let mut m = String::new();
                push_str(&mut m, e.message());
                Err(m)
            },
            _ => Ok(
                Token { kind: tok.kind, value: tok.value.clone(), offset: tok.offset },
            ),
        }
    }

    /// Peeks at the next token without consuming it; fails at the end of
    /// the stream.
    pub fn peek(&self) -> (r: ParseResult<&Token>)
        requires
            self.wf(),
        ensures
            match r {
                Ok(tok) => {
                    &&& self.pos < self.tokens@.len()
                    &&& *tok == self.tokens@[self.pos as int]
                },
                Err(_) => self.pos >= self.tokens@.len(),
            },
    {
        if self.pos < self.tokens.len() {
            Ok(&self.tokens[self.pos])
        } else {
            let mut m = String::new();
            push_str(&mut m, "Unexpectedly reach end of file");
            Err(m)
        }
    }

    /// Consumes the next token and checks its kind.
    pub fn expect(&mut self, expected: TokenKind) -> (r: ParseResult<Token>)
        requires
            old(self).wf(),
            !(expected is Error),
        ensures
            final(self).wf(),
            final(self).tokens == old(self).tokens,
            match r {
                Ok(tok) => {
                    &&& old(self).pos < old(self).tokens@.len()
                    &&& tok@ == old(self).tokens@[old(self).pos as int]@
                    &&& tok@.kind == expected
                    &&& final(self).pos == old(self).pos + 1
                },
                Err(_) => (old(self).pos >= old(self).tokens@.len() || old(self).tokens@[old(
                    self,
                ).pos as int]@.kind != expected),
            },
    {
        match self.take() {
            Ok(token) => {
                if token.kind == expected {
                    Ok(token)
                } else {
                    let mut m = String::new();
                    push_str(&mut m, "Unexpectedly got '");
                    push_str(&mut m, token.value.as_str());
                    push_str(&mut m, "'");
                    Err(m)
                }
            },
            Err(e) => Err(e),
        }
    }

    /// Parses `return <expr> ;`.
    pub fn parse_statement(&mut self) -> (r: ParseResult<Stmt>)
        requires
            old(self).wf(),
        ensures
            final(self).wf(),
            final(self).tokens == old(self).tokens,
            match r {
                Ok(stmt) => {
                    &&& spec_parse_statement(
                        old(self).tokens.deep_view(),
                        old(self).pos as int,
                    ) matches Some((s, rest)) && s == stmt && rest == final(self).pos
                },
                Err(_) => spec_parse_statement(
                    old(self).tokens.deep_view(),
                    old(self).pos as int,
                ) is None,
            },
    {
        proof {
            assert(old(self).tokens.deep_view().len() == old(self).tokens@.len());
        }
        let ret = self.expect(TokenKind::Return);
        match ret {
            Ok(_) => {},
            Err(e) => {
                return Err(e);
            },
        }
        let return_val = match self.parse_expr() {
            Ok(e) => e,
            Err(e) => {
                return Err(e);
            },
        };
        match self.expect(TokenKind::Semicolon) {
            Ok(_) => Ok(Stmt::Return(return_val)),
            Err(e) => Err(e),
        }
    }

    /// Parses a unary operator.
    pub fn parse_unaryop(&mut self) -> (r: ParseResult<UnaryOp>)
        requires
            old(self).wf(),
        ensures
            final(self).wf(),
            final(self).tokens == old(self).tokens,
            match r {
                Ok(op) => {
                    &&& old(self).pos < old(self).tokens@.len()
                    &&& final(self).pos == old(self).pos + 1
                    &&& (op is Negate <==> old(self).tokens@[old(
                        self,
                    ).pos as int]@.kind is Negate)
                    &&& (old(self).tokens@[old(self).pos as int]@.kind is Negate || old(
                        self,
                    ).tokens@[old(self).pos as int]@.kind is Complement)
                },
                Err(_) => (old(self).pos >= old(self).tokens@.len() || !(old(self).tokens@[old(
                    self,
                ).pos as int]@.kind is Negate || old(self).tokens@[old(
                    self,
                ).pos as int]@.kind is Complement)),
            },
    {
        match self.take() {
            Ok(tok) => match tok.kind {
                TokenKind::Complement => Ok(UnaryOp::Complement),
                TokenKind::Negate => Ok(UnaryOp::Negate),
                _ => {
                    let m = String::new();
                    Err(m)
                },
            },
            Err(e) => Err(e),
        }
    }

    /// Parses an expression: a constant, a unary operation, or a
    /// parenthesised expression.
    pub fn parse_expr(&mut self) -> (r: ParseResult<Expr>)
        requires
            old(self).wf(),
        ensures
            final(self).wf(),
            final(self).tokens == old(self).tokens,
            match r {
                Ok(e) => {
                    &&& spec_parse_expr(
                        old(self).tokens.deep_view(),
                        old(self).pos as int,
                    ) matches Some((e2, rest)) && e2 == e && rest == final(self).pos
                },
                Err(_) => spec_parse_expr(
                    old(self).tokens.deep_view(),
                    old(self).pos as int,
                ) is None,
            },
        decreases old(self).tokens@.len() - old(self).pos,
    {
        proof {
            assert(old(self).tokens.deep_view().len() == old(self).tokens@.len());
        }
        let kind = match self.peek() {
            Ok(tok) => tok.kind,
            Err(e) => {
                return Err(e);
            },
        };
        match kind {
            TokenKind::Constant => {
                let token = match self.expect(TokenKind::Constant) {
                    Ok(t) => t,
                    Err(e) => {
                        return Err(e);
                    },
                };
                let n = token.value.as_str().unicode_len();
                let mut digits: Vec<char> = Vec::new();
                let mut i: usize = 0;
                while i < n
                    invariant
                        n == token.value@.len(),
                        i <= n,
                        digits@ =~= token.value@.take(i as int),
                    decreases n - i,
                {
                    digits.push(token.value.as_str().get_char(i));
                    i = i + 1;
                }
                proof {
                    assert(digits@ =~= token.value@);
                }
                if n == 0 {
                    let mut m = String::new();
                    push_str(&mut m, "Malformed constant");
                    return Err(m);
                }
                let mut all: bool = true;
                let mut j: usize = 0;
                while j < n
                    invariant
                        n == digits@.len(),
                        j <= n,
                        all == (forall|k: int|
                            0 <= k < j ==> crate::text::is_digit(#[trigger] digits@[k])),
                    decreases n - j,
                {
                    let c = digits[j];
                    if !('0' <= c && c <= '9') {
                        all = false;
                    }
                    j = j + 1;
                }
                if !all {
                    let mut m = String::new();
                    push_str(&mut m, "Malformed constant");
                    return Err(m);
                }
                proof {
                    assert(all_digits(digits@));
                    assert(digits@ =~= digits@.subrange(0, n as int));
                }
                match parse_u32(&digits, 0, n) {
                    Some(v) => Ok(Expr::Constant(v)),
                    None => {
                        let mut m = String::new();
                        push_str(&mut m, "Malformed constant");
                        Err(m)
                    },
                }
            },
            TokenKind::Negate | TokenKind::Complement => {
                let op = match self.parse_unaryop() {
                    Ok(op) => op,
                    Err(e) => {
                        return Err(e);
                    },
                };
                let inner_expr = match self.parse_expr() {
                    Ok(e) => e,
                    Err(e) => {
                        return Err(e);
                    },
                };
                Ok(Expr::Unary(op, Box::new(inner_expr)))
            },
            TokenKind::LParen => {
                match self.expect(TokenKind::LParen) {
                    Ok(_) => {},
                    Err(e) => {
                        return Err(e);
                    },
                }
                let inner_expr = match self.parse_expr() {
                    Ok(e) => e,
                    Err(e) => {
                        return Err(e);
                    },
                };
                match self.expect(TokenKind::RParen) {
                    Ok(_) => Ok(inner_expr),
                    Err(e) => Err(e),
                }
            },
            _ => {
                let mut m = String::new();
                push_str(&mut m, "Malformed expression");
                Err(m)
            },
        }
    }

    /// Parses `int <name> ( void ) { <statement> }`.
    pub fn parse_function(&mut self) -> (r: ParseResult<Decl>)
        requires
            old(self).wf(),
        ensures
            final(self).wf(),
            final(self).tokens == old(self).tokens,
            match r {
                Ok(decl) => {
                    &&& spec_parse_function(
                        old(self).tokens.deep_view(),
                        old(self).pos as int,
                    ) matches Some((d, rest)) && d == decl@ && rest == final(self).pos
                },
                Err(_) => spec_parse_function(
                    old(self).tokens.deep_view(),
                    old(self).pos as int,
                ) is None,
            },
    {
        proof {
            assert(old(self).tokens.deep_view().len() == old(self).tokens@.len());
        }
        match self.expect(TokenKind::Int) {
            Ok(_) => {},
            Err(e) => {
                return Err(e);
            },
        }
        let name = match self.expect(TokenKind::Identifier) {
            Ok(t) => t,
            Err(e) => {
                return Err(e);
            },
        };
        match self.expect(TokenKind::LParen) {
            Ok(_) => {},
            Err(e) => {
                return Err(e);
            },
        }
        match self.expect(TokenKind::Void) {
            Ok(_) => {},
            Err(e) => {
                return Err(e);
            },
        }
        match self.expect(TokenKind::RParen) {
            Ok(_) => {},
            Err(e) => {
                return Err(e);
            },
        }
        match self.expect(TokenKind::LBrace) {
            Ok(_) => {},
            Err(e) => {
                return Err(e);
            },
        }
        let body = match self.parse_statement() {
            Ok(s) => s,
            Err(e) => {
                return Err(e);
            },
        };
        match self.expect(TokenKind::RBrace) {
            Ok(_) => Ok(Decl::Function(name.value, Box::new(body))),
            Err(e) => Err(e),
        }
    }

    /// Parses a whole program: one function.
    pub fn parse_program(&mut self) -> (r: ParseResult<Program>)
        requires
            old(self).wf(),
        ensures
            final(self).wf(),
            final(self).tokens == old(self).tokens,
            match r {
                Ok(prg) => {
                    &&& spec_parse_function(
                        old(self).tokens.deep_view(),
                        old(self).pos as int,
                    ) matches Some((d, rest)) && d == prg@.body && rest == final(self).pos
                },
                Err(_) => spec_parse_function(
                    old(self).tokens.deep_view(),
                    old(self).pos as int,
                ) is None,
            },
    {
        match self.parse_function() {
            Ok(func) => Ok(Program { body: func }),
            Err(e) => Err(e),
        }
    }
}

/// Parses the whole token list into a program: one function declaration,
/// with nothing left over. Succeeds exactly when the spec-level parse
/// does.
pub fn parse(tokens: &Vec<Token>) -> (r: ParseResult<Program>)
    ensures
        match r {
            Ok(prg) => spec_parse_program(tokens.deep_view()) == Some(prg@),
            Err(_) => spec_parse_program(tokens.deep_view()) is None,
        },
{
    let mut parser = Parser::new(tokens);
    let prg = match parser.parse_program() {
        Ok(p) => p,
        Err(e) => {
            return Err(e);
        },
    };
    if parser.pos < tokens.len() {
        let mut m = String::new();
        push_str(&mut m, "Expected end of program, but got '");
        push_str(&mut m, tokens[parser.pos].value.as_str());
        push_str(&mut m, "'");
        return Err(m);
    }
    proof {
        assert(tokens.deep_view().len() == tokens@.len());
    }
    Ok(prg)
}

} // verus!
