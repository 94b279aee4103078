//! The lexer: a scanner over the source characters that produces one
//! token at a time, recovering from bad stretches by scanning to the next
//! word boundary.

use vstd::prelude::*;

use super::ast::{LexError, Token, TokenKind, TokenModel};
use crate::error::CompilerError;
use crate::src::Source;
use crate::text::push_char;

verus! {

/// Whether `c` belongs to a word: a letter, a digit or an underscore.
pub open spec fn spec_is_word(c: char) -> bool {
    ('0' <= c && c <= '9') || ('a' <= c && c <= 'z') || ('A' <= c && c <= 'Z') || c == '_'
}

/// Whether `c` starts a word without being a digit.
pub open spec fn spec_is_word_start(c: char) -> bool {
    ('a' <= c && c <= 'z') || ('A' <= c && c <= 'Z') || c == '_'
}

/// Whether `c` is an ASCII digit.
pub open spec fn spec_is_digit(c: char) -> bool {
    '0' <= c && c <= '9'
}

/// Whether `c` is blank space.
pub open spec fn spec_is_space(c: char) -> bool {
    c == ' ' || c == '\t' || c == '\n' || c == '\r'
}

/// Whether `c` belongs to a word.
pub fn is_word(c: &char) -> (r: bool)
    ensures
        r == spec_is_word(*c),
{
    matches!(*c, '0'..='9' | 'a'..='z' | 'A'..='Z' | '_')
}

/// The first position at or after `from` whose character is no word
/// character, or the end of the input.
pub open spec fn scan_word_end(s: Seq<char>, from: int) -> int
    recommends
        0 <= from <= s.len(),
    decreases s.len() - from,
{
    if from < s.len() && spec_is_word(s[from]) {
        scan_word_end(s, from + 1)
    } else {
        from
    }
}

/// The first position at or after `from` whose character is no digit, or
/// the end of the input.
pub open spec fn scan_digit_end(s: Seq<char>, from: int) -> int
    recommends
        0 <= from <= s.len(),
    decreases s.len() - from,
{
    if from < s.len() && spec_is_digit(s[from]) {
        scan_digit_end(s, from + 1)
    } else {
        from
    }
}

/// The first position at or after `from` whose character is no blank
/// space, or the end of the input.
pub open spec fn scan_space_end(s: Seq<char>, from: int) -> int
    recommends
        0 <= from <= s.len(),
    decreases s.len() - from,
{
    if from < s.len() && spec_is_space(s[from]) {
        scan_space_end(s, from + 1)
    } else {
        from
    }
}

/// `scan_word_end` stays between `from` and the end of the input.
pub proof fn lemma_scan_word_end(s: Seq<char>, from: int)
    requires
        0 <= from <= s.len(),
    ensures
        from <= scan_word_end(s, from) <= s.len(),
    decreases s.len() - from,
{
    if from < s.len() && spec_is_word(s[from]) {
        lemma_scan_word_end(s, from + 1);
    }
}

/// `scan_digit_end` stays between `from` and the end of the input.
pub proof fn lemma_scan_digit_end(s: Seq<char>, from: int)
    requires
        0 <= from <= s.len(),
    ensures
        from <= scan_digit_end(s, from) <= s.len(),
    decreases s.len() - from,
{
    if from < s.len() && spec_is_digit(s[from]) {
        lemma_scan_digit_end(s, from + 1);
    }
}

/// `scan_space_end` stays between `from` and the end of the input.
pub proof fn lemma_scan_space_end(s: Seq<char>, from: int)
    requires
        0 <= from <= s.len(),
    ensures
        from <= scan_space_end(s, from) <= s.len(),
    decreases s.len() - from,
{
    if from < s.len() && spec_is_space(s[from]) {
        lemma_scan_space_end(s, from + 1);
    }
}

/// What scanning one token from position `pos` yields: the token's kind,
/// its first character, and the position right after it — or nothing, at
/// the end of the input or on a dangling minus sign.
pub open spec fn spec_next_token(s: Seq<char>, pos: int) -> Option<(TokenKind, int, int)>
    recommends
        0 <= pos <= s.len(),
{
    let start = scan_space_end(s, pos);
    if start >= s.len() {
        None
    } else {
        let c = s[start];
        if c == '-' {
            if start + 1 < s.len() {
                if s[start + 1] == '-' {
                    Some((TokenKind::Decrement, start, start + 1))
                } else {
                    Some((TokenKind::Negate, start, start + 1))
                }
            } else {
                None
            }
        } else if c == '~' {
            Some((TokenKind::Complement, start, start + 1))
        } else if c == '(' {
            Some((TokenKind::LParen, start, start + 1))
        } else if c == ')' {
            Some((TokenKind::RParen, start, start + 1))
        } else if c == '{' {
            Some((TokenKind::LBrace, start, start + 1))
        } else if c == '}' {
            Some((TokenKind::RBrace, start, start + 1))
        } else if c == ';' {
            Some((TokenKind::Semicolon, start, start + 1))
        } else if spec_is_word_start(c) {
            let end = scan_word_end(s, start + 1);
            let word = s.subrange(start, end);
            if word == "void"@ {
                Some((TokenKind::Void, start, end))
            } else if word == "int"@ {
                Some((TokenKind::Int, start, end))
            } else if word == "return"@ {
                Some((TokenKind::Return, start, end))
            } else {
                Some((TokenKind::Identifier, start, end))
            }
        } else if spec_is_digit(c) {
            let end = scan_digit_end(s, start + 1);
            if end >= s.len() || !spec_is_word(s[end]) {
                Some((TokenKind::Constant, start, end))
            } else {
                Some((TokenKind::Error(LexError::InvalidConstant), start, scan_word_end(s, end)))
            }
        } else {
            Some((TokenKind::Error(LexError::Unknown), start, scan_word_end(s, start + 1)))
        }
    }
}

/// Every token scanning yields covers at least one character past its
/// start, and stays inside the input.
pub proof fn lemma_spec_next_token(s: Seq<char>, pos: int)
    requires
        0 <= pos <= s.len(),
    ensures
        match spec_next_token(s, pos) {
            Some((kind, start, end)) => pos <= start < end <= s.len(),
            None => true,
        },
{
    lemma_scan_space_end(s, pos);
    let start = scan_space_end(s, pos);
    if start < s.len() {
        lemma_scan_word_end(s, start + 1);
        lemma_scan_digit_end(s, start + 1);
        let dend = scan_digit_end(s, start + 1);
        lemma_scan_word_end(s, dend);
    }
}

/// The whole token stream from position `pos` on, error tokens included.
pub open spec fn spec_tokens(s: Seq<char>, pos: int) -> Seq<TokenModel>
    recommends
        0 <= pos <= s.len(),
    decreases s.len() - pos + 1,
{
    if 0 <= pos <= s.len() {
        match spec_next_token(s, pos) {
            Some((kind, start, end)) => {
                if pos <= start < end <= s.len() {
                    seq![
                        TokenModel { kind, value: s.subrange(start, end), offset: start },
                    ] + spec_tokens(s, end)
                } else {
                    Seq::empty()
                }
            },
            None => Seq::empty(),
        }
    } else {
        Seq::empty()
    }
}

/// The scanner: walks the source characters once, remembering where the
/// token under construction began.
pub struct Scanner {
    src: Vec<char>,
    pos: usize,
    start: usize,
}

impl Scanner {
    /// The characters being scanned.
    pub closed spec fn spec_src(&self) -> Seq<char> {
        self.src@
    }

    /// The position of the next unread character.
    pub closed spec fn spec_pos(&self) -> int {
        self.pos as int
    }

    /// The position where the token under construction begins.
    pub closed spec fn spec_start(&self) -> int {
        self.start as int
    }

    /// The scanner's positions stay inside the input, start at or before
    /// the read position.
    pub closed spec fn wf(&self) -> bool {
        0 <= self.start <= self.pos <= self.src@.len()
    }

    /// A scanner over `chars`, at the beginning.
    pub fn from_chars(chars: Vec<char>) -> (sc: Scanner)
        ensures
            sc.wf(),
            sc.spec_src() == chars@,
            sc.spec_pos() == 0,
            sc.spec_start() == 0,
    {
        Scanner { src: chars, pos: 0, start: 0 }
    }

    /// Consumes one character, if any is left.
    fn eat(&mut self) -> (r: Option<char>)
        requires
            old(self).wf(),
        ensures
            final(self).wf(),
            final(self).spec_src() == old(self).spec_src(),
            final(self).spec_start() == old(self).spec_start(),
            match r {
                Some(c) => old(self).spec_pos() < old(self).spec_src().len() && c == old(self).spec_src()[old(self).spec_pos()] && final(self).spec_pos() == old(self).spec_pos() + 1,
                None => old(self).spec_pos() >= old(self).spec_src().len() && final(self).spec_pos() == old(self).spec_pos(),
            },
    {
        if self.pos < self.src.len() {
            let c = self.src[self.pos];
            self.pos = self.pos + 1;
            Some(c)
        } else {
            None
        }
    }

    /// Peeks at the next unread character without consuming it.
    fn one_ahead(&self) -> (r: Option<char>)
        requires
            self.wf(),
        ensures
            match r {
                Some(c) => self.spec_pos() < self.spec_src().len() && c == self.spec_src()[self.spec_pos()],
                None => self.spec_pos() >= self.spec_src().len(),
            },
    {
        if self.pos < self.src.len() {
            Some(self.src[self.pos])
        } else {
            None
        }
    }

    /// Forgets the consumed stretch: the next token begins here.
    fn empty_consumed(&mut self)
        requires
            old(self).wf(),
        ensures
            final(self).wf(),
            final(self).spec_src() == old(self).spec_src(),
            final(self).spec_pos() == old(self).spec_pos(),
            final(self).spec_start() == old(self).spec_pos(),
    {
        self.start = self.pos;
    }

    /// Consumes blank space.
    fn eat_spaces(&mut self)
        requires
            old(self).wf(),
        ensures
            final(self).wf(),
            final(self).spec_src() == old(self).spec_src(),
            final(self).spec_start() == old(self).spec_start(),
            final(self).spec_pos() == scan_space_end(old(self).spec_src(), old(self).spec_pos()),
    {
        loop
            invariant
                self.wf(),
                self.spec_src() == old(self).spec_src(),
                self.spec_start() == old(self).spec_start(),
                scan_space_end(self.spec_src(), self.spec_pos()) == scan_space_end(
                    old(self).spec_src(),
                    old(self).spec_pos(),
                ),
            ensures
                self.spec_pos() == scan_space_end(old(self).spec_src(), old(self).spec_pos()),
            decreases self.spec_src().len() - self.spec_pos(),
        {
            if self.pos < self.src.len() {
                let c = self.src[self.pos];
                if c == ' ' || c == '\t' || c == '\n' || c == '\r' {
                    self.pos = self.pos + 1;
                } else {
                    break ;
                }
            } else {
                break ;
            }
        }
    }

    /// Consumes word characters.
    fn eat_identifier(&mut self)
        requires
            old(self).wf(),
        ensures
            final(self).wf(),
            final(self).spec_src() == old(self).spec_src(),
            final(self).spec_start() == old(self).spec_start(),
            final(self).spec_pos() == scan_word_end(old(self).spec_src(), old(self).spec_pos()),
    {
        loop
            invariant
                self.wf(),
                self.spec_src() == old(self).spec_src(),
                self.spec_start() == old(self).spec_start(),
                scan_word_end(self.spec_src(), self.spec_pos()) == scan_word_end(
                    old(self).spec_src(),
                    old(self).spec_pos(),
                ),
            ensures
                self.spec_pos() == scan_word_end(old(self).spec_src(), old(self).spec_pos()),
            decreases self.spec_src().len() - self.spec_pos(),
        {
            if self.pos < self.src.len() {
                let c = self.src[self.pos];
                if is_word(&c) {
                    self.pos = self.pos + 1;
                } else {
                    break ;
                }
            } else {
                break ;
            }
        }
    }

    /// Consumes digits.
    fn eat_int_literal(&mut self)
        requires
            old(self).wf(),
        ensures
            final(self).wf(),
            final(self).spec_src() == old(self).spec_src(),
            final(self).spec_start() == old(self).spec_start(),
            final(self).spec_pos() == scan_digit_end(old(self).spec_src(), old(self).spec_pos()),
    {
        loop
            invariant
                self.wf(),
                self.spec_src() == old(self).spec_src(),
                self.spec_start() == old(self).spec_start(),
                scan_digit_end(self.spec_src(), self.spec_pos()) == scan_digit_end(
                    old(self).spec_src(),
                    old(self).spec_pos(),
                ),
            ensures
                self.spec_pos() == scan_digit_end(old(self).spec_src(), old(self).spec_pos()),
            decreases self.spec_src().len() - self.spec_pos(),
        {
            if self.pos < self.src.len() {
                let c = self.src[self.pos];
                if '0' <= c && c <= '9' {
                    self.pos = self.pos + 1;
                } else {
                    break ;
                }
            } else {
                break ;
            }
        }
    }

    /// Whether the next unread character ends a word.
    fn at_word_bound(&self) -> (r: bool)
        requires
            self.wf(),
        ensures
            r == (self.spec_pos() >= self.spec_src().len() || !spec_is_word(
                self.spec_src()[self.spec_pos()],
            )),
    {
        match self.one_ahead() {
            Some(c) => !is_word(&c),
            None => true,
        }
    }

    /// Builds the token for the consumed stretch and forgets it.
    fn emit(&mut self, kind: TokenKind) -> (tok: Token)
        requires
            old(self).wf(),
        ensures
            final(self).wf(),
            final(self).spec_src() == old(self).spec_src(),
            final(self).spec_pos() == old(self).spec_pos(),
            final(self).spec_start() == old(self).spec_pos(),
            tok@.kind == kind,
            tok@.offset == old(self).spec_start(),
            tok@.value == old(self).spec_src().subrange(
                old(self).spec_start(),
                old(self).spec_pos(),
            ),
    {
        let mut value = String::new();
        let mut i: usize = self.start;
        while i < self.pos
            invariant
                self.wf(),
                old(self).spec_start() <= i <= self.pos,
                self.spec_src() == old(self).spec_src(),
                self.spec_pos() == old(self).spec_pos(),
                self.spec_start() == old(self).spec_start(),
                value@ =~= self.spec_src().subrange(self.spec_start(), i as int),
            decreases self.pos - i,
        {
            push_char(&mut value, self.src[i]);
            proof {
                assert(value@ =~= self.spec_src().subrange(
                    self.spec_start(),
                    i + 1,
                ));
            }
            i = i + 1;
        }
        let tok = Token { kind, value, offset: self.start };
        self.empty_consumed();
        tok
    }

    /// Whether the consumed stretch spells the same characters as `w`.
    fn consumed_is(&self, w: &str) -> (r: bool)
        requires
            self.wf(),
        ensures
            r == (self.spec_src().subrange(self.spec_start(), self.spec_pos()) == w@),
    {
        let n = w.unicode_len();
        if n != self.pos - self.start {
            proof {
                assert(self.spec_src().subrange(self.spec_start(), self.spec_pos()).len() != w@.len());
            }
            return false;
        }
        let mut i: usize = 0;
        while i < n
            invariant
                self.wf(),
                n == w@.len(),
                n == self.spec_pos() - self.spec_start(),
                i <= n,
                forall|j: int|
                    0 <= j < i ==> self.spec_src()[self.spec_start() + j] == w@[j],
            decreases n - i,
        {
            if self.src[self.start + i] != w.get_char(i) {
                proof {
                    assert(self.spec_src().subrange(self.spec_start(), self.spec_pos())[i as int]
                        != w@[i as int]);
                }
                return false;
            }
            i = i + 1;
        }
        proof {
            assert(self.spec_src().subrange(self.spec_start(), self.spec_pos()) =~= w@);
        }
        true
    }

    /// Scans the next token; `None` at the end of the input or on a
    /// dangling minus sign.
    pub fn next(&mut self) -> (r: Option<Token>)
        requires
            old(self).wf(),
        ensures
            final(self).wf(),
            final(self).spec_src() == old(self).spec_src(),
            match r {
                Some(tok) => {
                    &&& spec_next_token(old(self).spec_src(), old(self).spec_pos()) matches Some(
                        (kind, start, end),
                    )
                    &&& tok@.kind == spec_next_token(
                        old(self).spec_src(),
                        old(self).spec_pos(),
                    )->Some_0.0
                    &&& tok@.offset == spec_next_token(
                        old(self).spec_src(),
                        old(self).spec_pos(),
                    )->Some_0.1
                    &&& tok@.value == old(self).spec_src().subrange(
                        spec_next_token(old(self).spec_src(), old(self).spec_pos())->Some_0.1,
                        spec_next_token(old(self).spec_src(), old(self).spec_pos())->Some_0.2,
                    )
                    &&& final(self).spec_pos() == spec_next_token(
                        old(self).spec_src(),
                        old(self).spec_pos(),
                    )->Some_0.2
                    &&& final(self).spec_start() == final(self).spec_pos()
                },
                None => spec_next_token(old(self).spec_src(), old(self).spec_pos()) is None,
            },
    {
        proof {
            lemma_scan_space_end(old(self).spec_src(), old(self).spec_pos());
            lemma_spec_next_token(old(self).spec_src(), old(self).spec_pos());
        }
        self.eat_spaces();
        self.empty_consumed();
        let first = match self.eat() {
            Some(c) => c,
            None => {
                return None;
            },
        };
        let kind: TokenKind = match first {
            '-' => {
                match self.one_ahead() {
                    Some(c) => {
                        if c == '-' {
                            TokenKind::Decrement
                        } else {
                            TokenKind::Negate
                        }
                    },
                    None => {
                        return None;
                    },
                }
            },
            '~' => TokenKind::Complement,
            '(' => TokenKind::LParen,
            ')' => TokenKind::RParen,
            '{' => TokenKind::LBrace,
            '}' => TokenKind::RBrace,
            ';' => TokenKind::Semicolon,
            'a'..='z' | 'A'..='Z' | '_' => {
                self.eat_identifier();
                if self.consumed_is("void") {
                    TokenKind::Void
                } else if self.consumed_is("int") {
                    TokenKind::Int
                } else if self.consumed_is("return") {
                    TokenKind::Return
                } else {
                    TokenKind::Identifier
                }
            },
            c if '0' <= c && c <= '9' => {
                self.eat_int_literal();
                if self.at_word_bound() {
                    TokenKind::Constant
                } else {
                    TokenKind::Error(LexError::InvalidConstant)
                }
            },
            _ => TokenKind::Error(LexError::Unknown),
        };
        if matches!(kind, TokenKind::Error(_)) {
            self.eat_identifier();
        }
        Some(self.emit(kind))
    }
}

/// Lexes `src` into its token stream, stopping at the first bad stretch:
/// the result is every token when none is an error token, and otherwise
/// the error that the first bad stretch raised.
pub fn tokenize(src: &str) -> (r: Result<Vec<Token>, CompilerError>)
    ensures
        match r {
            Ok(tokens) => {
                &&& tokens.deep_view() =~= spec_tokens(src@, 0)
                &&& forall|i: int|
                    0 <= i < tokens@.len() ==> !((#[trigger] tokens@[i])@.kind is Error)
            },
            Err(e) => {
                &&& e matches CompilerError::Lexer(source, tok)
                &&& (e matches CompilerError::Lexer(source, tok) ==> source.text@ == src@ && (
                exists|i: int|
                    {
                        &&& 0 <= i < spec_tokens(src@, 0).len()
                        &&& (#[trigger] spec_tokens(src@, 0)[i]).kind is Error
                        &&& tok@ == spec_tokens(src@, 0)[i]
                        &&& forall|j: int|
                            0 <= j < i ==> !((#[trigger] spec_tokens(src@, 0)[j]).kind is Error)
                    }))
            },
        },
{
    let n = src.unicode_len();
    let mut chars: Vec<char> = Vec::new();
    let mut i: usize = 0;
    while i < n
        invariant
            n == src@.len(),
            i <= n,
            chars@ =~= src@.take(i as int),
        decreases n - i,
    {
        chars.push(src.get_char(i));
        i = i + 1;
    }
    proof {
        assert(chars@ =~= src@);
    }
    let mut sc = Scanner::from_chars(chars);
    let mut tokens: Vec<Token> = Vec::new();
    let mut bad: Option<Token> = None;
    loop
        invariant_except_break
            sc.wf(),
            sc.spec_src() == src@,
            sc.spec_start() == sc.spec_pos(),
            bad is None,
            tokens.deep_view() + spec_tokens(src@, sc.spec_pos()) =~= spec_tokens(src@, 0),
            forall|i: int| 0 <= i < tokens@.len() ==> !((#[trigger] tokens@[i])@.kind is Error),
        ensures
            match bad {
                None => tokens.deep_view() =~= spec_tokens(src@, 0) && (forall|i: int|
                    0 <= i < tokens@.len() ==> !((#[trigger] tokens@[i])@.kind is Error)),
                Some(tok) => exists|i: int|
                    {
                        &&& 0 <= i < spec_tokens(src@, 0).len()
                        &&& (#[trigger] spec_tokens(src@, 0)[i]).kind is Error
                        &&& tok@ == spec_tokens(src@, 0)[i]
                        &&& forall|j: int|
                            0 <= j < i ==> !((#[trigger] spec_tokens(src@, 0)[j]).kind is Error)
                    },
            },
        decreases src@.len() - sc.spec_pos(),
    {
        let ghost pos0 = sc.spec_pos();
        proof {
            lemma_spec_next_token(src@, pos0);
        }
        match sc.next() {
            Some(tok) => {
                proof {
                    assert(spec_tokens(src@, pos0) =~= seq![tok@] + spec_tokens(
                        src@,
                        sc.spec_pos(),
                    ));
                }
                if matches!(tok.kind, TokenKind::Error(_)) {
                    proof {
                        let k = tokens@.len() as int;
                        assert(spec_tokens(src@, 0)[k] == tok@);
                        assert forall|j: int| 0 <= j < k implies !((#[trigger] spec_tokens(
                            src@,
                            0,
                        )[j]).kind is Error) by {
                            assert(spec_tokens(src@, 0)[j] == tokens@[j]@);
                        }
                    }
                    bad = Some(tok);
                    break ;
                }
                tokens.push(tok);
                proof {
                    assert(tokens.deep_view() + spec_tokens(src@, sc.spec_pos()) =~= spec_tokens(
                        src@,
                        0,
                    ));
                }
            },
            None => {
                proof {
                    assert(spec_tokens(src@, pos0) =~= Seq::<TokenModel>::empty());
                    assert(tokens.deep_view() =~= spec_tokens(src@, 0));
                }
                break ;
            },
        }
    }
    match bad {
        Some(tok) => Err(CompilerError::Lexer(Source { text: src.to_owned() }, tok)),
        None => Ok(tokens),
    }
}

} // verus!
