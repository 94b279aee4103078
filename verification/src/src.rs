//! Source text and the positions diagnostics point at.

use vstd::prelude::*;

use crate::parser::ast::Token;
use crate::text::push_char;

verus! {

/// The source text of one compilation unit, with offsets counted in
/// characters.
#[derive(Debug)]
pub struct Source {
    pub text: String,
}

/// The number of line breaks strictly before `offset`.
pub open spec fn line_of(text: Seq<char>, offset: int) -> int
    decreases offset,
{
    if offset <= 0 {
        0
    } else {
        line_of(text, offset - 1) + (if text[offset - 1] == '\n' {
            1int
        } else {
            0int
        })
    }
}

/// The start of the line that holds `offset`: one past the last line
/// break strictly before it.
pub open spec fn line_start_of(text: Seq<char>, offset: int) -> int
    decreases offset,
{
    if offset <= 0 {
        0
    } else if text[offset - 1] == '\n' {
        offset
    } else {
        line_start_of(text, offset - 1)
    }
}

/// A position in a source: the line it is on and the column within it,
/// both counted from zero.
pub struct Position<'src> {
    pub src: &'src Source,
    pub line: usize,
    pub col: usize,
}

/// A stretch of source text: where it starts and how long it is.
pub struct Span<'src> {
    pub pos: Position<'src>,
    pub len: usize,
}

impl<'src> From<Span<'src>> for &'src Source {
    fn from(val: Span<'src>) -> (r: &'src Source) {
        val.pos.src
    }
}

impl<'src> vstd::std_specs::convert::FromSpecImpl<Span<'src>> for &'src Source {
    open spec fn obeys_from_spec() -> bool {
        true
    }

    open spec fn from_spec(val: Span<'src>) -> Self {
        val.pos.src
    }
}

impl Source {
    /// The span of `tok` in this source, if its offset falls inside the
    /// text.
    pub fn get_span<'a>(&'a self, tok: &Token) -> (r: Option<Span<'a>>)
        ensures
            match r {
                Some(span) => {
                    &&& tok.offset < self.text@.len()
                    &&& span.len == tok.value@.len()
                    &&& span.pos.line == line_of(self.text@, tok.offset as int)
                    &&& span.pos.col == tok.offset - line_start_of(self.text@, tok.offset as int)
                },
                None => tok.offset >= self.text@.len(),
            },
    {
        let len = tok.value.as_str().unicode_len();
        match self.pos_of(tok.offset) {
            Some(pos) => Some(Span { pos, len }),
            None => None,
        }
    }

    /// The position of character `offset`, if it falls inside the text.
    fn pos_of<'a>(&'a self, offset: usize) -> (r: Option<Position<'a>>)
        ensures
            match r {
                Some(pos) => {
                    &&& offset < self.text@.len()
                    &&& pos.line == line_of(self.text@, offset as int)
                    &&& pos.col == offset - line_start_of(self.text@, offset as int)
                },
                None => offset >= self.text@.len(),
            },
    {
        get_pos(self, offset)
    }
}

/// The position of character `offset` in `src`: its line index and its
/// column from the start of that line.
pub fn get_pos<'a>(src: &'a Source, offset: usize) -> (r: Option<Position<'a>>)
    ensures
        match r {
            Some(pos) => {
                &&& offset < src.text@.len()
                &&& pos.line == line_of(src.text@, offset as int)
                &&& pos.col == offset - line_start_of(src.text@, offset as int)
            },
            None => offset >= src.text@.len(),
        },
{
    let text = &src.text;
    let n = text.as_str().unicode_len();
    if offset >= n {
        return None;
    }
    let mut line: usize = 0;
    let mut line_start: usize = 0;
    let mut i: usize = 0;
    while i < offset
        invariant
            i <= offset < n,
            n == src.text@.len(),
            line == line_of(src.text@, i as int),
            line_start == line_start_of(src.text@, i as int),
            line <= i,
            line_start <= i,
        decreases offset - i,
    {
        let c = src.text.as_str().get_char(i);
        proof {
            reveal_with_fuel(line_of, 2);
            reveal_with_fuel(line_start_of, 2);
            assert(line_of(src.text@, i + 1) == line_of(src.text@, i as int) + (
            if src.text@[i as int] == '\n' {
                1int
            } else {
                0int
            }));
            assert(line_start_of(src.text@, i + 1) == (if src.text@[i as int] == '\n' {
                i + 1
            } else {
                line_start_of(src.text@, i as int)
            }));
        }
        if c == '\n' {
            line = line + 1;
            line_start = i + 1;
        }
        i = i + 1;
    }
    Some(Position { src, line, col: offset - line_start })
}

/// The text of line `line` of `text`: its characters between the
/// surrounding line breaks, the breaks excluded.
pub open spec fn line_text(text: Seq<char>, line: int) -> Seq<char>
    decreases text.len(),
{
    if text.len() == 0 {
        Seq::empty()
    } else if text[0] == '\n' {
        if line > 0 {
            line_text(text.drop_first(), line - 1)
        } else {
            Seq::empty()
        }
    } else if line == 0 {
        seq![text[0]] + line_text(text.drop_first(), 0)
    } else {
        line_text(text.drop_first(), line)
    }
}

impl<'src> Span<'src> {
    /// The marked line of source text, with a caret line underneath that
    /// points at the span: the line's text, a line break, `col` blanks
    /// and `len` carets.
    pub fn render(&self) -> (r: String)
        ensures
            r@ == line_text(self.pos.src.text@, self.pos.line as int) + seq!['\n'] + Seq::new(
                self.pos.col as nat,
                |j: int| ' ',
            ) + Seq::new(self.len as nat, |j: int| '^'),
    {
        let src = self.pos.src;
        let n = src.text.as_str().unicode_len();
        let target = self.pos.line;
        let mut out = String::new();
        let mut i: usize = 0;
        let mut line: usize = 0;
        proof {
            assert(src.text@.skip(0) =~= src.text@);
        }
        // copy the characters of the marked line
        loop
            invariant_except_break
                i <= n,
                n == src.text@.len(),
                line <= i,
                line <= target,
                src == self.pos.src,
                target == self.pos.line,
                out@ + line_text(src.text@.skip(i as int), target - line) =~= line_text(
                    src.text@,
                    target as int,
                ),
                line < target ==> out@ =~= Seq::<char>::empty(),
            ensures
                out@ =~= line_text(self.pos.src.text@, self.pos.line as int),
            decreases n - i,
        {
            if i >= n {
                proof {
                    assert(src.text@.skip(i as int) =~= Seq::<char>::empty());
                }
                break ;
            }
            let c = src.text.as_str().get_char(i);
            proof {
                assert(src.text@.skip(i as int).drop_first() =~= src.text@.skip(i + 1));
                assert(src.text@.skip(i as int)[0] == src.text@[i as int]);
            }
            if c == '\n' {
                if line == target {
                    break ;
                }
                line = line + 1;
            } else if line == target {
                push_char(&mut out, c);
            }
            i = i + 1;
        }
        push_char(&mut out, '\n');
        let mut k: usize = 0;
        while k < self.pos.col
            invariant
                k <= self.pos.col,
                out@ =~= line_text(self.pos.src.text@, self.pos.line as int) + seq!['\n']
                    + Seq::new(k as nat, |j: int| ' '),
            decreases self.pos.col - k,
        {
            push_char(&mut out, ' ');
            proof {
                assert(Seq::new((k + 1) as nat, |j: int| ' ') =~= Seq::new(
                    k as nat,
                    |j: int| ' ',
                ).push(' '));
            }
            k = k + 1;
        }
        let mut m: usize = 0;
        while m < self.len
            invariant
                m <= self.len,
                out@ =~= line_text(self.pos.src.text@, self.pos.line as int) + seq!['\n']
                    + Seq::new(self.pos.col as nat, |j: int| ' ') + Seq::new(
                    m as nat,
                    |j: int| '^',
                ),
            decreases self.len - m,
        {
            push_char(&mut out, '^');
            proof {
                assert(Seq::new((m + 1) as nat, |j: int| '^') =~= Seq::new(
                    m as nat,
                    |j: int| '^',
                ).push('^'));
            }
            m = m + 1;
        }
        out
    }
}

} // verus!
