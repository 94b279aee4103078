//! Textual rendering of operations and blocks, and the re-parsing of a
//! rendered operation header. Rendering is lossless for the name and the
//! operand identifiers; attributes are rendered but need not survive the
//! trip back.

use vstd::prelude::*;

use crate::attr::Attribute;
use crate::ctx::{Ctx, Ptr};
use crate::ir::{Block, Operation, Value};
use crate::link::block_wf;
use crate::parser::lexer::{scan_digit_end, spec_is_digit};
use crate::text::{dec_digits, dec_val, fmt_usize, push_char, push_str};

verus! {

/// How a value renders: a percent sign and its identifier.
pub open spec fn render_value(v: Value) -> Seq<char> {
    seq!['%'] + dec_digits(v.id as nat)
}

/// A list of pieces joined with a comma and a space.
pub open spec fn spec_join(ss: Seq<Seq<char>>) -> Seq<char>
    decreases ss.len(),
{
    if ss.len() == 0 {
        Seq::empty()
    } else if ss.len() == 1 {
        ss[0]
    } else {
        ss[0] + seq![',', ' '] + spec_join(ss.drop_first())
    }
}

/// How an attribute value renders.
pub open spec fn render_attr(a: Attribute) -> Seq<char> {
    match a {
        Attribute::Int(n) => dec_digits(n as nat),
    }
}

/// How an attribute map renders: `key: value` entries, joined.
pub open spec fn render_attrs(entries: Seq<(Seq<char>, Attribute)>) -> Seq<char> {
    spec_join(entries.map_values(|e: (Seq<char>, Attribute)| e.0 + seq![':', ' '] + render_attr(e.1)))
}

/// How one operation renders: the optional result, `:=`, the name, the
/// operand list, and the attribute map when it is non-empty.
pub open spec fn render_op(op: Operation) -> Seq<char> {
    (match op.result {
        Some(v) => render_value(v) + seq![' ', ':', '=', ' '],
        None => Seq::empty(),
    }) + op.name@ + seq![' '] + spec_join(op.operands@.map_values(|v: Value| render_value(v))) + (
    if op.attributes@.len() > 0 {
        seq![' ', '{'] + render_attrs(op.attributes@) + seq!['}']
    } else {
        Seq::empty()
    })
}

/// Joins the pieces with a comma and a space between each two.
pub fn fmt_delimited_list(items: &Vec<String>) -> (r: String)
    ensures
        r@ == spec_join(items.deep_view()),
{
    proof {
        assert(items.deep_view().skip(0) =~= items.deep_view());
    }
    join_from(items, 0)
}

/// Joins the pieces from position `i` on.
fn join_from(items: &Vec<String>, i: usize) -> (r: String)
    requires
        i <= items@.len(),
    ensures
        r@ == spec_join(items.deep_view().skip(i as int)),
    decreases items@.len() - i,
{
    proof {
        assert(items.deep_view().len() == items@.len());
    }
    let mut out = String::new();
    if i >= items.len() {
        proof {
            assert(items.deep_view().skip(i as int) =~= Seq::<Seq<char>>::empty());
        }
        return out;
    }
    push_str(&mut out, items[i].as_str());
    proof {
        assert(items.deep_view().skip(i as int)[0] == items@[i as int]@);
    }
    if i + 1 < items.len() {
        push_str(&mut out, ", ");
        let rest = join_from(items, i + 1);
        push_str(&mut out, rest.as_str());
        proof {
            reveal_strlit(", ");
            assert(items.deep_view().skip(i as int).drop_first() =~= items.deep_view().skip(
                i as int + 1,
            ));
            assert(out@ =~= spec_join(items.deep_view().skip(i as int)));
        }
    } else {
        proof {
            assert(items.deep_view().skip(i as int).len() == 1);
            assert(out@ =~= spec_join(items.deep_view().skip(i as int)));
        }
    }
    out
}

/// Renders `v` as `%<id>`.
pub fn render_value_text(v: &Value) -> (r: String)
    ensures
        r@ == render_value(*v),
{
    let mut out = String::new();
    push_char(&mut out, '%');
    let digits = fmt_usize(v.id);
    push_str(&mut out, digits.as_str());
    proof {
        assert(out@ =~= render_value(*v));
    }
    out
}

/// Renders one operation as its header line:
/// `<result> := <name> <op1>, <op2>, ... {key: value}`.
#[verifier::rlimit(60)]
#[verifier::spinoff_prover]
pub fn render_operation(op: &Operation) -> (r: String)
    ensures
        r@ == render_op(*op),
{
    let mut out = String::new();
    match &op.result {
        Some(v) => {
            let rendered = render_value_text(v);
            push_str(&mut out, rendered.as_str());
            push_str(&mut out, " := ");
            proof {
                reveal_strlit(" := ");
                assert(out@ =~= render_value(op.result->Some_0) + seq![' ', ':', '=', ' ']);
            }
        },
        None => {},
    }
    push_str(&mut out, op.name);
    push_char(&mut out, ' ');
    let mut parts: Vec<String> = Vec::new();
    let k = op.operands.len();
    let mut i: usize = 0;
    while i < k
        invariant
            k == op.operands@.len(),
            i <= k,
            parts@.len() == i,
            parts.deep_view() =~= op.operands@.take(i as int).map_values(
                |v: Value| render_value(v),
            ),
        decreases k - i,
    {
        let piece = render_value_text(&op.operands[i]);
        parts.push(piece);
        proof {
            let target = op.operands@.take(i + 1).map_values(|v: Value| render_value(v));
            assert(parts@.len() == i + 1);
            assert(parts.deep_view().len() == i + 1);
            assert(target.len() == i + 1);
            assert forall|t: int| 0 <= t < i + 1 implies parts.deep_view()[t] == target[t] by {
                assert(op.operands@.take(i + 1)[t] == op.operands@[t]);
                if t < i {
                    assert(op.operands@.take(i as int)[t] == op.operands@[t]);
                    assert(parts.deep_view()[t] == op.operands@.take(i as int).map_values(
                        |v: Value| render_value(v),
                    )[t]);
                }
            }
            assert(parts.deep_view() =~= target);
        }
        i = i + 1;
    }
    proof {
        assert(op.operands@.take(k as int) =~= op.operands@);
    }
    let joined = fmt_delimited_list(&parts);
    push_str(&mut out, joined.as_str());
    if op.attributes.len() > 0 {
        push_str(&mut out, " {");
        let entries = op.attributes.entries();
        let mut attr_parts: Vec<String> = Vec::new();
        let m = entries.len();
        let mut j: usize = 0;
        while j < m
            invariant
                m == entries@.len(),
                entries@.len() == op.attributes@.len(),
                forall|t: int|
                    0 <= t < m ==> ((#[trigger] entries@[t]).0@, entries@[t].1)
                        == op.attributes@[t],
                j <= m,
                attr_parts@.len() == j,
                attr_parts.deep_view() =~= op.attributes@.take(j as int).map_values(
                    |e: (Seq<char>, Attribute)| e.0 + seq![':', ' '] + render_attr(e.1),
                ),
            decreases m - j,
        {
            let mut piece = String::new();
            push_str(&mut piece, entries[j].0.as_str());
            push_str(&mut piece, ": ");
            match entries[j].1 {
                Attribute::Int(n) => {
                    let digits = fmt_usize(n as usize);
                    push_str(&mut piece, digits.as_str());
                    proof {
                        assert(dec_digits(n as nat) == dec_digits((n as usize) as nat));
                    }
                },
            }
            attr_parts.push(piece);
            proof {
                reveal_strlit(": ");
                let target = op.attributes@.take(j + 1).map_values(
                    |e: (Seq<char>, Attribute)| e.0 + seq![':', ' '] + render_attr(e.1),
                );
                assert(attr_parts.deep_view().len() == j + 1);
                assert(target.len() == j + 1);
                assert(": "@ =~= seq![':', ' ']);
                assert forall|t: int| 0 <= t < j + 1 implies attr_parts.deep_view()[t]
                    == target[t] by {
                    assert(op.attributes@.take(j + 1)[t] == op.attributes@[t]);
                    if t < j {
                        assert(op.attributes@.take(j as int)[t] == op.attributes@[t]);
                        assert(attr_parts.deep_view()[t] == op.attributes@.take(
                            j as int,
                        ).map_values(
                            |e: (Seq<char>, Attribute)| e.0 + seq![':', ' '] + render_attr(e.1),
                        )[t]);
                    } else {
                        assert((entries@[t].0@, entries@[t].1) == op.attributes@[t]);
                    }
                }
                assert(attr_parts.deep_view() =~= target);
            }
            j = j + 1;
        }
        proof {
            assert(op.attributes@.take(m as int) =~= op.attributes@);
        }
        let joined_attrs = fmt_delimited_list(&attr_parts);
        push_str(&mut out, joined_attrs.as_str());
        push_char(&mut out, '}');
        proof {
            reveal_strlit(" {");
            assert(out@ =~= render_op(*op));
        }
    } else {
        proof {
            assert(out@ =~= render_op(*op));
        }
    }
    out
}

/// How a block renders: a `.bb<id>:` header line, then each operation of
/// the program order indented on a line of its own.
pub open spec fn render_block_lines(ch: Seq<Ptr>, ops: Seq<Operation>) -> Seq<char>
    decreases ch.len(),
{
    if ch.len() == 0 {
        Seq::empty()
    } else {
        seq![' ', ' ', ' ', ' '] + render_op(ops[ch[0].idx as int]) + seq!['\n']
            + render_block_lines(ch.drop_first(), ops)
    }
}

/// The rendered block: header, then the lines.
pub open spec fn render_block_spec(b: Block, ops: Seq<Operation>) -> Seq<char> {
    seq!['.', 'b', 'b'] + dec_digits(b.id as nat) + seq![':', '\n'] + render_block_lines(
        b.chain@,
        ops,
    )
}

/// One rendered line is appended per chain member.
proof fn lemma_render_lines_snoc(ch: Seq<Ptr>, ops: Seq<Operation>, i: int)
    requires
        0 <= i < ch.len(),
    ensures
        render_block_lines(ch.take(i + 1), ops) == render_block_lines(ch.take(i), ops) + (seq![
            ' ',
            ' ',
            ' ',
            ' ',
        ] + render_op(ops[ch[i].idx as int]) + seq!['\n']),
    decreases i,
{
    if i == 0 {
        assert(ch.take(1).drop_first() =~= Seq::<Ptr>::empty());
        assert(ch.take(0) =~= Seq::<Ptr>::empty());
        assert(ch.take(1)[0] == ch[0]);
        assert(ch.take(1).len() == 1);
        assert(render_block_lines(Seq::<Ptr>::empty(), ops) =~= Seq::<char>::empty());
        assert(render_block_lines(ch.take(0), ops) =~= Seq::<char>::empty());
        assert(render_block_lines(ch.take(1), ops) =~= seq![' ', ' ', ' ', ' '] + render_op(
            ops[ch[0].idx as int],
        ) + seq!['\n']);
    } else {
        lemma_render_lines_snoc(ch.drop_first(), ops, i - 1);
        assert(ch.take(i + 1).drop_first() =~= ch.drop_first().take(i));
        assert(ch.take(i).drop_first() =~= ch.drop_first().take(i - 1));
        assert(ch.take(i + 1)[0] == ch[0]);
        assert(ch.take(i)[0] == ch[0]);
        assert(ch.drop_first()[i - 1] == ch[i]);
    }
}

/// Renders a block: its label and each operation of its program order,
/// indented, in order.
#[verifier::rlimit(60)]
#[verifier::spinoff_prover]
pub fn render_block(b: &Block, ctx: &Ctx) -> (r: String)
    requires
        block_wf(*b, ctx.operations@),
    ensures
        r@ == render_block_spec(*b, ctx.operations@),
{
    let mut out = String::new();
    push_str(&mut out, ".bb");
    let digits = fmt_usize(b.id);
    push_str(&mut out, digits.as_str());
    push_str(&mut out, ":\n");
    proof {
        reveal_strlit(".bb");
        reveal_strlit(":\n");
    }
    let order = b.iterate(ctx);
    let n = order.len();
    let mut i: usize = 0;
    while i < n
        invariant
            n == order@.len(),
            order@ == b.chain@,
            block_wf(*b, ctx.operations@),
            i <= n,
            out@ =~= seq!['.', 'b', 'b'] + dec_digits(b.id as nat) + seq![':', '\n']
                + render_block_lines(b.chain@.take(i as int), ops_of(ctx)),
        decreases n - i,
    {
        proof {
            lemma_chain_member_in_range(b.chain@, ctx.operations@, i as int);
        }
        push_str(&mut out, "    ");
        let line = render_operation(ctx.get_operation(crate::ctx::OperationId(order[i].idx)));
        push_str(&mut out, line.as_str());
        push_char(&mut out, '\n');
        proof {
            reveal_strlit("    ");
            lemma_render_lines_snoc(b.chain@, ctx.operations@, i as int);
            assert(out@ =~= seq!['.', 'b', 'b'] + dec_digits(b.id as nat) + seq![':', '\n']
                + render_block_lines(b.chain@.take(i + 1), ops_of(ctx)));
        }
        i = i + 1;
    }
    proof {
        assert(b.chain@.take(n as int) =~= b.chain@);
    }
    out
}

/// The operation store of a context.
pub open spec fn ops_of(ctx: &Ctx) -> Seq<Operation> {
    ctx.operations@
}

/// A chain member's handle is in range of the store.
proof fn lemma_chain_member_in_range(ch: Seq<Ptr>, ops: Seq<Operation>, i: int)
    requires
        crate::link::chain_links(ch, ops),
        0 <= i < ch.len(),
    ensures
        ch[i].idx < ops.len(),
{
}

/// The first position at or after `from` whose character is a space, or
/// the end of the input.
pub open spec fn scan_to_space(s: Seq<char>, from: int) -> int
    recommends
        0 <= from <= s.len(),
    decreases s.len() - from,
{
    if from < s.len() && s[from] != ' ' {
        scan_to_space(s, from + 1)
    } else {
        from
    }
}

/// What parsing a `%`-prefixed value list at `p` yields: the values and
/// the position right after the last digit.
pub open spec fn spec_parse_vals(s: Seq<char>, p: int) -> Option<(Seq<usize>, int)>
    recommends
        0 <= p <= s.len(),
    decreases s.len() - p,
{
    if 0 <= p < s.len() && s[p] == '%' {
        let de = scan_digit_end(s, p + 1);
        if de <= p + 1 || de > s.len() {
            None
        } else if dec_val(s.subrange(p + 1, de)) > usize::MAX {
            None
        } else {
            let v = dec_val(s.subrange(p + 1, de)) as usize;
            if de + 2 < s.len() && s[de] == ',' && s[de + 1] == ' ' && s[de + 2] == '%' {
                match spec_parse_vals(s, de + 2) {
                    Some((vs, e)) => Some((seq![v] + vs, e)),
                    None => None,
                }
            } else {
                Some((seq![v], de))
            }
        }
    } else {
        None
    }
}

/// What re-parsing a rendered header yields: the result identifier if one
/// was rendered, the mnemonic, and the operand identifiers.
pub open spec fn spec_parse_header(s: Seq<char>) -> Option<(Option<usize>, Seq<char>, Seq<usize>)> {
    let with_result = s.len() > 0 && s[0] == '%';
    let de = scan_digit_end(s, 1);
    if with_result && (de == 1 || !(de + 4 <= s.len() && s[de] == ' ' && s[de + 1] == ':' && s[de
        + 2] == '=' && s[de + 3] == ' ') || dec_val(s.subrange(1, de)) > usize::MAX) {
        None
    } else {
        let res = if with_result {
            Some(dec_val(s.subrange(1, de)) as usize)
        } else {
            None::<usize>
        };
        let q = if with_result {
            de + 4
        } else {
            0
        };
        let ne = scan_to_space(s, q);
        if ne == q {
            None
        } else {
            let name = s.subrange(q, ne);
            if ne >= s.len() || ne + 1 >= s.len() || s[ne + 1] != '%' {
                Some((res, name, Seq::empty()))
            } else {
                match spec_parse_vals(s, ne + 1) {
                    Some((vs, _)) => Some((res, name, vs)),
                    None => None,
                }
            }
        }
    }
}

/// A re-parsed header: the rendered result, mnemonic and operands.
pub struct ParsedHeader {
    pub result: Option<usize>,
    pub name: String,
    pub operands: Vec<usize>,
}

/// The first position at or after `from` that holds no digit.
fn scan_digits_exec(s: &Vec<char>, from: usize) -> (r: usize)
    requires
        from <= s@.len(),
    ensures
        from <= r <= s@.len(),
        r == scan_digit_end(s@, from as int),
{
    let n = s.len();
    let mut i = from;
    while i < n
        invariant
            from <= i <= n,
            n == s@.len(),
            scan_digit_end(s@, i as int) == scan_digit_end(s@, from as int),
        decreases n - i,
    {
        let c = s[i];
        if !('0' <= c && c <= '9') {
            return i;
        }
        i += 1;
    }
    i
}

/// The first position at or after `from` that holds a space.
fn scan_space_exec(s: &Vec<char>, from: usize) -> (r: usize)
    requires
        from <= s@.len(),
    ensures
        from <= r <= s@.len(),
        r == scan_to_space(s@, from as int),
{
    let n = s.len();
    let mut i = from;
    while i < n
        invariant
            from <= i <= n,
            n == s@.len(),
            scan_to_space(s@, i as int) == scan_to_space(s@, from as int),
        decreases n - i,
    {
        let c = s[i];
        if c == ' ' {
            return i;
        }
        i += 1;
    }
    i
}

/// Parses a `%`-prefixed value list, mirroring [`spec_parse_vals`].
fn parse_vals_exec(s: &Vec<char>, p: usize) -> (r: Option<(Vec<usize>, usize)>)
    requires
        p <= s@.len(),
    ensures
        match r {
            Some((vs, e)) => spec_parse_vals(s@, p as int) == Some((vs@, e as int)),
            None => spec_parse_vals(s@, p as int) is None,
        },
    decreases s@.len() - p,
{
    let n = s.len();
    if !(p < n && s[p] == '%') {
        return None;
    }
    let de = scan_digits_exec(s, p + 1);
    if de == p + 1 {
        return None;
    }
    proof {
        lemma_scan_digits_are_digits(s@, p + 1);
    }
    let v = match crate::text::parse_usize(s, p + 1, de) {
        Some(v) => v,
        None => {
            return None;
        },
    };
    if n > 2 && de < n - 2 && s[de] == ',' && s[de + 1] == ' ' && s[de + 2] == '%' {
        match parse_vals_exec(s, de + 2) {
            Some((vs, e)) => {
                let mut out: Vec<usize> = Vec::new();
                out.push(v);
                let mut rest = vs;
                out.append(&mut rest);
                proof {
                    assert(out@ =~= seq![v] + spec_parse_vals(s@, de + 2)->Some_0.0);
                }
                Some((out, e))
            },
            None => None,
        }
    } else {
        let mut out: Vec<usize> = Vec::new();
        out.push(v);
        proof {
            assert(out@ =~= seq![v]);
        }
        Some((out, de))
    }
}

/// Everything a digit scan walked over is a digit.
proof fn lemma_scan_digits_are_digits(s: Seq<char>, from: int)
    requires
        0 <= from <= s.len(),
    ensures
        scan_digit_end(s, from) <= s.len(),
        forall|j: int| from <= j < scan_digit_end(s, from) ==> spec_is_digit(#[trigger] s[j]),
        forall|j: int|
            from <= j < scan_digit_end(s, from) ==> crate::text::is_digit(#[trigger] s[j]),
    decreases s.len() - from,
{
    if from < s.len() && spec_is_digit(s[from]) {
        lemma_scan_digits_are_digits(s, from + 1);
    }
}

/// Re-parses a rendered operation header: the result identifier, the
/// mnemonic, and the operand identifiers, exactly as
/// [`spec_parse_header`] reads them.
pub fn parse_header(s: &str) -> (r: Option<ParsedHeader>)
    ensures
        match r {
            Some(h) => spec_parse_header(s@) == Some(
                (h.result, h.name@, h.operands@),
            ),
            None => spec_parse_header(s@) is None,
        },
{
    let n0 = s.unicode_len();
    let mut chars: Vec<char> = Vec::new();
    let mut ci: usize = 0;
    while ci < n0
        invariant
            n0 == s@.len(),
            ci <= n0,
            chars@ =~= s@.take(ci as int),
        decreases n0 - ci,
    {
        chars.push(s.get_char(ci));
        ci += 1;
    }
    proof {
        assert(chars@ =~= s@);
    }
    let n = chars.len();
    let mut result_id: Option<usize> = None;
    let mut q: usize = 0;
    if n > 0 && chars[0] == '%' {
        let de = scan_digits_exec(&chars, 1);
        if de == 1 {
            return None;
        }
        if !(n >= 4 && de <= n - 4 && chars[de] == ' ' && chars[de + 1] == ':' && chars[de + 2]
            == '=' && chars[de + 3] == ' ') {
            return None;
        }
        proof {
            lemma_scan_digits_are_digits(chars@, 1);
        }
        match crate::text::parse_usize(&chars, 1, de) {
            Some(v) => {
                result_id = Some(v);
                q = de + 4;
            },
            None => {
                return None;
            },
        }
    }
    let ne = scan_space_exec(&chars, q);
    if ne == q {
        return None;
    }
    let name = crate::text::substring_chars(s, q, ne);
    if ne >= n || ne + 1 >= n || chars[ne + 1] != '%' {
        return Some(ParsedHeader { result: result_id, name, operands: Vec::new() });
    }
    match parse_vals_exec(&chars, ne + 1) {
        Some((vs, _e)) => Some(ParsedHeader { result: result_id, name, operands: vs }),
        None => None,
    }
}

/// A digit scan over a known digit stretch stops exactly at its end.
proof fn lemma_scan_digit_stops(s: Seq<char>, a: int, b: int)
    requires
        0 <= a <= b <= s.len(),
        forall|j: int| a <= j < b ==> spec_is_digit(#[trigger] s[j]),
        b == s.len() || !spec_is_digit(s[b]),
    ensures
        scan_digit_end(s, a) == b,
    decreases b - a,
{
    if a < b {
        lemma_scan_digit_stops(s, a + 1, b);
    }
}

/// A space scan over a known space-free stretch stops exactly at its end.
proof fn lemma_scan_space_stops(s: Seq<char>, a: int, b: int)
    requires
        0 <= a <= b <= s.len(),
        forall|j: int| a <= j < b ==> (#[trigger] s[j]) != ' ',
        b == s.len() || s[b] == ' ',
    ensures
        scan_to_space(s, a) == b,
    decreases b - a,
{
    if a < b {
        lemma_scan_space_stops(s, a + 1, b);
    }
}

/// Parsing the rendered operand list out of the surrounding text yields
/// exactly the operand identifiers, ending right after the last digit.
proof fn lemma_parse_vals_round_trip(s: Seq<char>, t: int, vs: Seq<Value>)
    requires
        vs.len() >= 1,
        0 <= t,
        t + spec_join(vs.map_values(|v: Value| render_value(v))).len() <= s.len(),
        s.subrange(t, t + spec_join(vs.map_values(|v: Value| render_value(v))).len() as int)
            == spec_join(vs.map_values(|v: Value| render_value(v))),
        ({
            let e = t + spec_join(vs.map_values(|v: Value| render_value(v))).len();
            e == s.len() || s[e] == ' '
        }),
    ensures
        spec_parse_vals(s, t) == Some(
            (
                vs.map_values(|v: Value| v.id),
                t + spec_join(vs.map_values(|v: Value| render_value(v))).len(),
            ),
        ),
    decreases vs.len(),
{
    let m = vs.map_values(|v: Value| render_value(v));
    let jn = spec_join(m);
    let e = t + jn.len();
    let d = dec_digits(vs[0].id as nat);
    let dl = d.len() as int;
    crate::text::lemma_dec_digits(vs[0].id as nat);
    assert(m[0] == render_value(vs[0]));
    if vs.len() == 1 {
        assert(jn == render_value(vs[0]));
        assert(s[t] == '%') by {
            assert(jn[0] == '%');
            assert(s.subrange(t, e)[0] == s[t]);
        }
        assert forall|j: int| t + 1 <= j < t + 1 + dl implies spec_is_digit(
            #[trigger] s[j],
        ) by {
            assert(jn[j - t] == d[j - t - 1]);
            assert(s.subrange(t, e)[j - t] == s[j]);
        }
        assert(t + 1 + dl == e);
        lemma_scan_digit_stops(s, t + 1, e);
        assert(s.subrange(t + 1, e) =~= d) by {
            assert forall|j: int| 0 <= j < dl implies s.subrange(t + 1, e)[j] == d[j] by {
                assert(s.subrange(t, e)[j + 1] == s[t + 1 + j]);
                assert(jn[j + 1] == d[j]);
            }
        }
        assert(dec_val(s.subrange(t + 1, e)) == vs[0].id as nat);
        if e + 2 < s.len() && s[e] == ',' && s[e + 1] == ' ' && s[e + 2] == '%' {
            assert(false);
        }
        assert(vs.map_values(|v: Value| v.id) =~= seq![vs[0].id]);
    } else {
        let tailm = vs.drop_first().map_values(|v: Value| render_value(v));
        assert(m.drop_first() =~= tailm);
        assert(jn == m[0] + seq![',', ' '] + spec_join(m.drop_first()));
        let jt = spec_join(tailm);
        assert(jn == render_value(vs[0]) + seq![',', ' '] + jt);
        assert(jt.len() >= 1) by {
            crate::text::lemma_dec_digits(vs.drop_first()[0].id as nat);
            assert(tailm[0] == render_value(vs.drop_first()[0]));
            if vs.drop_first().len() == 1 {
                assert(jt == tailm[0]);
            } else {
                assert(jt == tailm[0] + seq![',', ' '] + spec_join(tailm.drop_first()));
            }
        }
        assert(s[t] == '%') by {
            assert(jn[0] == '%');
            assert(s.subrange(t, e)[0] == s[t]);
        }
        assert forall|j: int| t + 1 <= j < t + 1 + dl implies spec_is_digit(
            #[trigger] s[j],
        ) by {
            assert(jn[j - t] == d[j - t - 1]);
            assert(s.subrange(t, e)[j - t] == s[j]);
        }
        let de = t + 1 + dl;
        assert(s[de] == ',') by {
            assert(jn[de - t] == ',');
            assert(s.subrange(t, e)[de - t] == s[de]);
        }
        lemma_scan_digit_stops(s, t + 1, de);
        assert(s.subrange(t + 1, de) =~= d) by {
            assert forall|j: int| 0 <= j < dl implies s.subrange(t + 1, de)[j] == d[j] by {
                assert(s.subrange(t, e)[j + 1] == s[t + 1 + j]);
                assert(jn[j + 1] == d[j]);
            }
        }
        assert(dec_val(s.subrange(t + 1, de)) == vs[0].id as nat);
        assert(s[de + 1] == ' ') by {
            assert(jn[de + 1 - t] == ' ');
            assert(s.subrange(t, e)[de + 1 - t] == s[de + 1]);
        }
        assert(s[de + 2] == '%') by {
            assert(jn[de + 2 - t] == '%');
            crate::text::lemma_dec_digits(vs.drop_first()[0].id as nat);
            assert(tailm[0] == render_value(vs.drop_first()[0]));
            if vs.drop_first().len() == 1 {
                assert(jt == tailm[0]);
            } else {
                assert(jt == tailm[0] + seq![',', ' '] + spec_join(tailm.drop_first()));
            }
            assert(jt[0] == '%');
            assert(s.subrange(t, e)[de + 2 - t] == s[de + 2]);
        }
        assert(de + 2 < s.len());
        assert(s.subrange(de + 2, de + 2 + jt.len() as int) == jt) by {
            assert forall|j: int| 0 <= j < jt.len() implies s.subrange(
                de + 2,
                de + 2 + jt.len() as int,
            )[j] == jt[j] by {
                assert(jn[de + 2 - t + j] == jt[j]);
                assert(s.subrange(t, e)[de + 2 - t + j] == s[de + 2 + j]);
            }
        }
        lemma_parse_vals_round_trip(s, de + 2, vs.drop_first());
        assert(vs.map_values(|v: Value| v.id) =~= seq![vs[0].id] + vs.drop_first().map_values(
            |v: Value| v.id,
        ));
        assert(de + 2 + jt.len() == e);
    }
}

/// Round-trip rendering: re-parsing a rendered operation header recovers
/// the result identifier, the mnemonic and the operand identifiers that
/// were rendered, for any operation whose name is non-empty, free of
/// spaces, and does not open like a value reference.
#[verifier::rlimit(100)]
#[verifier::spinoff_prover]
pub proof fn lemma_render_header_round_trip(op: Operation)
    requires
        op.name@.len() > 0,
        forall|i: int| 0 <= i < op.name@.len() ==> (#[trigger] op.name@[i]) != ' ',
        op.name@[0] != '%',
    ensures
        spec_parse_header(render_op(op)) == Some(
            (
                match op.result {
                    Some(v) => Some(v.id),
                    None => None::<usize>,
                },
                op.name@,
                op.operands@.map_values(|v: Value| v.id),
            ),
        ),
{
    let s = render_op(op);
    let m = op.operands@.map_values(|v: Value| render_value(v));
    let jn = spec_join(m);
    let attrs = if op.attributes@.len() > 0 {
        seq![' ', '{'] + render_attrs(op.attributes@) + seq!['}']
    } else {
        Seq::<char>::empty()
    };
    let prefix = match op.result {
        Some(v) => render_value(v) + seq![' ', ':', '=', ' '],
        None => Seq::<char>::empty(),
    };
    assert(s == prefix + op.name@ + seq![' '] + jn + attrs);
    let q = prefix.len() as int;
    let ne = q + op.name@.len() as int;
    // the name ends at the first space, which render places right after it
    assert(s[ne] == ' ');
    assert forall|j: int| q <= j < ne implies (#[trigger] s[j]) != ' ' by {
        assert(s[j] == op.name@[j - q]);
    }
    match op.result {
        Some(v) => {
            let d = dec_digits(v.id as nat);
            let dl = d.len() as int;
            crate::text::lemma_dec_digits(v.id as nat);
            assert(s[0] == '%');
            assert forall|j: int| 1 <= j < 1 + dl implies spec_is_digit(#[trigger] s[j]) by {
                assert(s[j] == d[j - 1]);
            }
            assert(s[1 + dl] == ' ');
            lemma_scan_digit_stops(s, 1, 1 + dl);
            let de = 1 + dl;
            assert(s[de + 1] == ':');
            assert(s[de + 2] == '=');
            assert(s[de + 3] == ' ');
            assert(s.subrange(1, de) =~= d);
            assert(dec_val(s.subrange(1, de)) == v.id as nat);
            assert(de + 4 == q);
            lemma_scan_space_stops(s, q, ne);
            assert(s.subrange(q, ne) =~= op.name@);
            lemma_header_tail(op, s, ne);
        },
        None => {
            assert(s[0] == op.name@[0]);
            assert(!(s.len() > 0 && s[0] == '%'));
            assert(q == 0);
            lemma_scan_space_stops(s, q, ne);
            assert(s.subrange(q, ne) =~= op.name@);
            lemma_header_tail(op, s, ne);
        },
    }
}

/// After the name's trailing space, the operand list parses back to the
/// operand identifiers, whether or not attributes follow.
proof fn lemma_header_tail(op: Operation, s: Seq<char>, ne: int)
    requires
        s == render_op(op),
        ({
            let prefix = match op.result {
                Some(v) => render_value(v) + seq![' ', ':', '=', ' '],
                None => Seq::<char>::empty(),
            };
            ne == prefix.len() + op.name@.len()
        }),
    ensures
        ({
            let jn = spec_join(op.operands@.map_values(|v: Value| render_value(v)));
            if op.operands@.len() == 0 {
                ne >= s.len() || ne + 1 >= s.len() || s[ne + 1] != '%'
            } else {
                ne + 1 < s.len() && s[ne + 1] == '%' && spec_parse_vals(s, ne + 1) == Some(
                    (op.operands@.map_values(|v: Value| v.id), ne + 1 + jn.len()),
                )
            }
        }),
{
    let m = op.operands@.map_values(|v: Value| render_value(v));
    let jn = spec_join(m);
    let attrs = if op.attributes@.len() > 0 {
        seq![' ', '{'] + render_attrs(op.attributes@) + seq!['}']
    } else {
        Seq::<char>::empty()
    };
    let prefix = match op.result {
        Some(v) => render_value(v) + seq![' ', ':', '=', ' '],
        None => Seq::<char>::empty(),
    };
    assert(s == prefix + op.name@ + seq![' '] + jn + attrs);
    if op.operands@.len() == 0 {
        assert(jn.len() == 0);
        if op.attributes@.len() > 0 {
            assert(s[ne + 1] == ' ');
        } else {
            assert(s.len() == ne + 1);
        }
    } else {
        crate::text::lemma_dec_digits(op.operands@[0].id as nat);
        assert(m[0] == render_value(op.operands@[0]));
        assert(jn.len() >= 1) by {
            if op.operands@.len() == 1 {
                assert(jn == m[0]);
            } else {
                assert(jn == m[0] + seq![',', ' '] + spec_join(m.drop_first()));
            }
        }
        assert(jn[0] == '%') by {
            if op.operands@.len() == 1 {
                assert(jn == m[0]);
            } else {
                assert(jn == m[0] + seq![',', ' '] + spec_join(m.drop_first()));
            }
        }
        assert(s[ne + 1] == '%');
        assert(s.subrange(ne + 1, ne + 1 + jn.len() as int) == jn) by {
            assert forall|j: int| 0 <= j < jn.len() implies s.subrange(
                ne + 1,
                ne + 1 + jn.len() as int,
            )[j] == jn[j] by {
                assert(s[ne + 1 + j] == jn[j]);
            }
        }
        let e = ne + 1 + jn.len();
        if op.attributes@.len() > 0 {
            assert(s[e] == ' ');
        } else {
            assert(e == s.len());
        }
        lemma_parse_vals_round_trip(s, ne + 1, op.operands@);
    }
}

} // verus!
