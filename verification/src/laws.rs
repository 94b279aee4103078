//! Properties that tie the library's contracts together, stated and
//! proved once so that callers need not rederive them.

use vstd::prelude::*;

use crate::ctx::{Ctx, Ptr};
use crate::dialect::from_arith::{unary_lowered, unary_trigger, LowerBinop};
use crate::dialect::from_func::{func_def_lowered, func_trigger, prologue_shape, ret_lowered, LowerFunc};
use crate::ir::{op_content_eq, Block, Operation};
use crate::link::{block_wf, lemma_chain_pos_unique};
use crate::rewrite::{RewriteRule, RewriteRuleSet};
use crate::transform::RewritingCtx;

verus! {

/// Append order: appending a handle leaves every earlier handle at its
/// place and puts the new one last, so a walk of the grown chain yields
/// the appended handles in append order; the first append of all becomes
/// the head and the latest the tail, as [`crate::ir::Block::append`]'s
/// contract states over the same chain.
pub proof fn lemma_append_order(ch: Seq<Ptr>, p: Ptr)
    ensures
        ch.push(p).len() == ch.len() + 1,
        ch.push(p)[ch.len() as int] == p,
        forall|i: int| 0 <= i < ch.len() ==> ch.push(p)[i] == ch[i],
        ch.push(p)[0] == (if ch.len() == 0 {
            p
        } else {
            ch[0]
        }),
{
}

/// Insert-before correctness: splicing `p` at the position `k` of the
/// anchor yields an order where `p` immediately precedes the anchor,
/// every other handle keeps its relative place, and an anchor at the
/// head hands the head over to `p`.
pub proof fn lemma_insert_before(ch: Seq<Ptr>, p: Ptr, k: int)
    requires
        0 <= k < ch.len(),
    ensures
        ch.insert(k, p).len() == ch.len() + 1,
        ch.insert(k, p)[k] == p,
        ch.insert(k, p)[k + 1] == ch[k],
        forall|i: int| 0 <= i < k ==> ch.insert(k, p)[i] == ch[i],
        forall|i: int| k <= i < ch.len() ==> ch.insert(k, p)[i + 1] == ch[i],
        k == 0 ==> ch.insert(k, p)[0] == p,
{
    assert forall|i: int| k <= i < ch.len() implies ch.insert(k, p)[i + 1] == ch[i] by {}
}

/// The target vocabulary the unary-arithmetic lowering emits is outside
/// that rule's own pattern: none of `x86.mov`, `x86.neg` and `x86.not`
/// triggers it again.
pub proof fn lemma_target_not_unary(op: Operation)
    requires
        op.name@ == "x86.mov"@ || op.name@ == "x86.neg"@ || op.name@ == "x86.not"@,
    ensures
        !unary_trigger(op),
{
    reveal_strlit("x86.mov");
    reveal_strlit("x86.neg");
    reveal_strlit("x86.not");
    reveal_strlit("arith.negate");
    reveal_strlit("arith.complement");
    assert("x86.mov"@.len() == 7);
    assert("x86.neg"@.len() == 7);
    assert("x86.not"@.len() == 7);
    assert("arith.negate"@.len() == 12);
    assert("arith.complement"@.len() == 16);
}

/// Partial-pass idempotence for the unary-arithmetic rule set: over a
/// sequence in which no stored operation matches the unary pattern any
/// more — as holds once lowering is complete — no rule of the set
/// triggers anywhere, so [`crate::transform::rewrite_ops`]'s contract
/// returns context and block exactly as given.
pub proof fn lemma_unary_lowering_idempotent(
    ctx: Ctx,
    block: Block,
    pass: RewriteRuleSet<LowerBinop>,
)
    requires
        block_wf(block, ctx.operations@),
        forall|i: int|
            0 <= i < block.ops@.len() ==> !unary_trigger(
                ctx.operations@[(#[trigger] block.ops@[i]).idx as int],
            ),
    ensures
        forall|i: int|
            0 <= i < block.ops@.len() ==> !pass.spec_triggers(
                ctx.operations@[(#[trigger] block.ops@[i]).idx as int],
            ),
{
    assert forall|i: int| 0 <= i < block.ops@.len() implies !pass.spec_triggers(
        ctx.operations@[(#[trigger] block.ops@[i]).idx as int],
    ) by {
        let op = ctx.operations@[block.ops@[i].idx as int];
        assert forall|r: int| 0 <= r < pass.rules@.len() implies !(#[trigger] pass.rules@[r]).spec_triggers(
            op,
        ) by {}
    }
}

/// Rewrite completeness for one unary operation: lowering a sequence
/// that holds exactly one `arith.negate` (or `arith.complement`) leaves
/// exactly two target operations — a `mov` from the operand into the
/// result's storage, then the matching in-place instruction on that same
/// storage — and no unary-arithmetic operation remains.
pub proof fn lemma_unary_rewrite_complete(pre: RewritingCtx, post: RewritingCtx)
    requires
        pre.wf(),
        pre.op.idx == 0,
        pre.block.ops@.len() == 1,
        pre.block.chain@.len() == 1,
        unary_trigger(pre.cur_op()),
        unary_lowered(pre, post),
    ensures
        post.block.chain@.len() == 2,
        ({
            let moved = post.ctx.operations@[post.block.chain@[0].idx as int];
            let target = post.ctx.operations@[post.block.chain@[1].idx as int];
            let src = pre.cur_op().operands@[0];
            let dst = pre.cur_op().result->Some_0;
            &&& moved.name@ == "x86.mov"@
            &&& moved.operands@ =~= seq![src, dst]
            &&& moved.result == Some(dst)
            &&& (target.name@ == "x86.neg"@ || target.name@ == "x86.not"@)
            &&& target.operands@ =~= seq![dst]
            &&& target.result == Some(dst)
            &&& !unary_trigger(moved)
            &&& !unary_trigger(target)
        }),
{
    let cur = pre.cur_ptr();
    assert(pre.block.chain@.contains(cur));
    assert(pre.block.chain@[0] == cur) by {
        let w = choose|w: int| 0 <= w < pre.block.chain@.len() && pre.block.chain@[w] == cur;
        assert(pre.block.chain@[w] == cur);
    }
    lemma_chain_pos_unique(pre.block.chain@, cur, 0);
    let p = Ptr { idx: pre.ctx.operations@.len() as usize };
    assert(post.block.chain@ =~= pre.block.chain@.insert(0, p));
    assert(post.block.chain@[0] == p);
    assert(post.block.chain@[1] == cur);
    assert(p.idx != cur.idx) by {
        let ch = pre.block.chain@;
        assert(ch[0] == cur);
    }
    let moved = post.ctx.operations@[p.idx as int];
    let target = post.ctx.operations@[cur.idx as int];
    lemma_target_not_unary(moved);
    lemma_target_not_unary(target);
}

/// One-position runs reduce to the rule: driving a single-rule pass over
/// a block whose storage order holds one handle applies that rule's
/// relation exactly once, from the given engine state to the final one.
/// The trace `tr` is the one [`crate::transform::rewrite_ops`]'s contract
/// guarantees to exist.
pub proof fn lemma_single_step_run<R: RewriteRule>(
    ctx0: Ctx,
    block0: Block,
    pass: RewriteRuleSet<R>,
    tr: Seq<RewritingCtx>,
    ctx1: Ctx,
    block1: Block,
)
    requires
        pass.rules@.len() == 1,
        block0.ops@.len() == 1,
        crate::transform::driver_trace(pass, tr, ctx0, block0),
        tr[tr.len() - 1].ctx == ctx1,
        tr[tr.len() - 1].block == block1,
    ensures
        pass.rules@[0].spec_apply(
            (RewritingCtx { ctx: ctx0, block: block0, op: crate::ctx::Ptr { idx: 0 } }),
            (RewritingCtx { ctx: ctx1, block: block1, op: crate::ctx::Ptr { idx: 0 } }),
        ),
{
    let start = RewritingCtx { ctx: ctx0, block: block0, op: crate::ctx::Ptr { idx: 0 } };
    assert(tr.len() == 2);
    assert(tr[0] == start);
    assert(crate::transform::pass_step(pass, tr[0], tr[1]));
    let mid = RewritingCtx { ctx: tr[1].ctx, block: tr[1].block, op: start.op };
    assert(pass.spec_applied(tr[0], mid));
    let ch = choose|ch: Seq<RewritingCtx>|
        #[trigger] crate::rewrite::rules_chain(pass.rules@, ch) && ch[0] == tr[0] && ch[ch.len()
            - 1] == mid;
    assert(crate::rewrite::rules_chain(pass.rules@, ch));
    assert(ch.len() == 2);
    assert(pass.rules@[0].spec_apply(ch[0], ch[1]));
    assert(ch[1] == mid);
    assert(mid == (RewritingCtx { ctx: ctx1, block: block1, op: crate::ctx::Ptr { idx: 0 } }));
}

/// Rewrite completeness through the driver: a pass holding the
/// unary-arithmetic rule alone, run by [`crate::transform::rewrite_ops`]
/// over a block whose storage order holds exactly one `arith.negate` or
/// `arith.complement`, ends in a program order of exactly two target
/// operations — a `mov` from the operand into the result's storage, then
/// the matching in-place instruction on that storage — with no
/// unary-arithmetic operation left anywhere in the sequence. The trace
/// `tr` is the one the driver's contract guarantees to exist.
pub proof fn lemma_unary_pass_complete(
    ctx0: Ctx,
    block0: Block,
    pass: RewriteRuleSet<LowerBinop>,
    tr: Seq<RewritingCtx>,
    ctx1: Ctx,
    block1: Block,
)
    requires
        block_wf(block0, ctx0.operations@),
        crate::transform::regions_wf(ctx0.operations@, block0.chain@),
        pass.rules@.len() == 1,
        block0.ops@.len() == 1,
        block0.chain@.len() == 1,
        unary_trigger(ctx0.operations@[block0.ops@[0].idx as int]),
        crate::transform::driver_trace(pass, tr, ctx0, block0),
        tr[tr.len() - 1].ctx == ctx1,
        tr[tr.len() - 1].block == block1,
    ensures
        block1.chain@.len() == 2,
        ({
            let src = ctx0.operations@[block0.ops@[0].idx as int].operands@[0];
            let dst = ctx0.operations@[block0.ops@[0].idx as int].result->Some_0;
            let moved = ctx1.operations@[block1.chain@[0].idx as int];
            let target = ctx1.operations@[block1.chain@[1].idx as int];
            &&& moved.name@ == "x86.mov"@
            &&& moved.operands@ =~= seq![src, dst]
            &&& moved.result == Some(dst)
            &&& (target.name@ == "x86.neg"@ || target.name@ == "x86.not"@)
            &&& target.operands@ =~= seq![dst]
            &&& target.result == Some(dst)
        }),
        forall|q: int|
            0 <= q < block1.chain@.len() ==> !unary_trigger(
                ctx1.operations@[(#[trigger] block1.chain@[q]).idx as int],
            ),
{
    let start = RewritingCtx { ctx: ctx0, block: block0, op: crate::ctx::Ptr { idx: 0 } };
    let mid = RewritingCtx { ctx: ctx1, block: block1, op: crate::ctx::Ptr { idx: 0 } };
    lemma_single_step_run(ctx0, block0, pass, tr, ctx1, block1);
    assert(start.cur_ptr() == block0.ops@[0]);
    assert(unary_trigger(start.cur_op()));
    assert(unary_lowered(start, mid));
    lemma_unary_rewrite_complete(start, mid);
    let moved = ctx1.operations@[block1.chain@[0].idx as int];
    let target = ctx1.operations@[block1.chain@[1].idx as int];
    assert forall|q: int| 0 <= q < block1.chain@.len() implies !unary_trigger(
        ctx1.operations@[(#[trigger] block1.chain@[q]).idx as int],
    ) by {
        if q == 0 {
            assert(!unary_trigger(moved));
        } else {
            assert(!unary_trigger(target));
        }
    }
}

/// Prologue injection through the driver: running the function-lowering
/// pass over a block whose storage order holds one function definition
/// with a body leaves the definition's entry region with the standard
/// prologue at its very front, its pre-existing members behind it in
/// their old order. The trace `tr` is the one
/// [`crate::transform::rewrite_ops`]'s contract guarantees to exist.
pub proof fn lemma_function_pass_injects_prologue(
    ctx0: Ctx,
    block0: Block,
    pass: RewriteRuleSet<LowerFunc>,
    tr: Seq<RewritingCtx>,
    ctx1: Ctx,
    block1: Block,
)
    requires
        pass.rules@.len() == 1,
        block0.ops@.len() == 1,
        ctx0.operations@[block0.ops@[0].idx as int].name@ == "func.func"@,
        ctx0.operations@[block0.ops@[0].idx as int].blocks@.len() > 0,
        crate::transform::driver_trace(pass, tr, ctx0, block0),
        tr[tr.len() - 1].ctx == ctx1,
        tr[tr.len() - 1].block == block1,
    ensures
        ({
            let cur = block0.ops@[0];
            let entry_pre = ctx0.operations@[cur.idx as int].blocks@[0];
            let entry_post = ctx1.operations@[cur.idx as int].blocks@[0];
            &&& prologue_shape(ctx1.operations@, entry_post.chain@)
            &&& entry_post.chain@.len() == entry_pre.chain@.len() + 4
            &&& entry_post.chain@.skip(4) =~= entry_pre.chain@
        }),
{
    let start = RewritingCtx { ctx: ctx0, block: block0, op: crate::ctx::Ptr { idx: 0 } };
    let mid = RewritingCtx { ctx: ctx1, block: block1, op: crate::ctx::Ptr { idx: 0 } };
    lemma_single_step_run(ctx0, block0, pass, tr, ctx1, block1);
    assert(start.cur_ptr() == block0.ops@[0]);
    assert(func_def_lowered(start, mid));
}

/// Along a driver trace of the function-lowering pass, a prefix of
/// positions whose operations the rule does not recognise leaves the
/// engine state exactly as it was handed over.
proof fn lemma_func_trace_identity(
    ctx0: Ctx,
    block0: Block,
    pass: RewriteRuleSet<LowerFunc>,
    tr: Seq<RewritingCtx>,
    i: int,
)
    requires
        pass.rules@.len() == 1,
        crate::transform::driver_trace(pass, tr, ctx0, block0),
        0 <= i < tr.len(),
        forall|q: int|
            0 <= q < i ==> !func_trigger(
                ctx0.operations@[(#[trigger] block0.ops@[q]).idx as int],
            ),
    ensures
        tr[i].ctx == ctx0,
        tr[i].block == block0,
        tr[i].op.idx == i,
    decreases i,
{
    if i == 0 {
        assert(tr[0] == (RewritingCtx {
            ctx: ctx0,
            block: block0,
            op: crate::ctx::Ptr { idx: 0 },
        }));
    } else {
        lemma_func_trace_identity(ctx0, block0, pass, tr, i - 1);
        let k = i - 1;
        assert(crate::transform::pass_step(pass, tr[k], tr[k + 1]));
        assert(crate::transform::pass_step(pass, tr[i - 1], tr[i]));
        let prev = tr[i - 1];
        let mid = RewritingCtx { ctx: tr[i].ctx, block: tr[i].block, op: prev.op };
        assert(pass.spec_applied(prev, mid));
        let ch = choose|ch: Seq<RewritingCtx>|
            #[trigger] crate::rewrite::rules_chain(pass.rules@, ch) && ch[0] == prev && ch[ch.len()
                - 1] == mid;
        assert(crate::rewrite::rules_chain(pass.rules@, ch));
        assert(ch.len() == 2);
        assert(pass.rules@[0].spec_apply(ch[0], ch[1]));
        assert(ch[1] == mid);
        assert(prev.cur_op() == ctx0.operations@[block0.ops@[i - 1].idx as int]);
        assert(!func_trigger(prev.cur_op()));
        assert(mid == prev);
    }
}

/// Return lowering through the driver: running the function-lowering
/// pass over a block whose only recognised operation is a trailing
/// `func.ret` with one operand splices a read of the return register and
/// a `mov` of the operand into it immediately before that position, in
/// that order, replaces the `func.ret` with a bare target `ret`, and
/// keeps the content of every other stored operation and the order of
/// everything in front. The trace `tr` is the one
/// [`crate::transform::rewrite_ops`]'s contract guarantees to exist.
pub proof fn lemma_function_pass_lowers_trailing_ret(
    ctx0: Ctx,
    block0: Block,
    pass: RewriteRuleSet<LowerFunc>,
    tr: Seq<RewritingCtx>,
    ctx1: Ctx,
    block1: Block,
)
    requires
        block_wf(block0, ctx0.operations@),
        pass.rules@.len() == 1,
        block0.ops@.len() >= 1,
        block0.chain@.len() >= 1,
        crate::transform::driver_trace(pass, tr, ctx0, block0),
        tr[tr.len() - 1].ctx == ctx1,
        tr[tr.len() - 1].block == block1,
        forall|q: int|
            0 <= q < block0.ops@.len() - 1 ==> !func_trigger(
                ctx0.operations@[(#[trigger] block0.ops@[q]).idx as int],
            ),
        block0.chain@[block0.chain@.len() - 1] == block0.ops@[block0.ops@.len() - 1],
        ctx0.operations@[block0.ops@[block0.ops@.len() - 1].idx as int].name@ == "func.ret"@,
        ctx0.operations@[block0.ops@[block0.ops@.len() - 1].idx as int].operands@.len() == 1,
    ensures
        ({
            let m = block0.chain@.len() as int;
            let cur = block0.ops@[block0.ops@.len() - 1];
            let val = ctx0.operations@[cur.idx as int].operands@[0];
            let reg_read = ctx1.operations@[block1.chain@[m - 1].idx as int];
            let moved = ctx1.operations@[block1.chain@[m].idx as int];
            let target = ctx1.operations@[block1.chain@[m + 1].idx as int];
            &&& block1.chain@.len() == m + 2
            &&& forall|q: int| 0 <= q < m - 1 ==> block1.chain@[q] == block0.chain@[q]
            &&& block1.chain@[m + 1] == cur
            &&& ctx1.operations@.len() == ctx0.operations@.len() + 2
            &&& block1.chain@[m - 1] == (Ptr { idx: ctx0.operations@.len() as usize })
            &&& block1.chain@[m] == (Ptr { idx: (ctx0.operations@.len() + 1) as usize })
            &&& reg_read.name@ == "x86.ax"@
            &&& reg_read.operands@.len() == 0
            &&& moved.name@ == "x86.mov"@
            &&& moved.operands@ =~= seq![val, reg_read.result->Some_0]
            &&& target.name@ == "x86.ret"@
            &&& target.operands@.len() == 0
            &&& target.result is None
            &&& forall|j: int|
                0 <= j < ctx0.operations@.len() && j != cur.idx ==> op_content_eq(
                    #[trigger] ctx1.operations@[j],
                    ctx0.operations@[j],
                )
        }),
{
    let n = block0.ops@.len() as int;
    let m = block0.chain@.len() as int;
    let cur = block0.ops@[n - 1];
    lemma_func_trace_identity(ctx0, block0, pass, tr, n - 1);
    let k = n - 1;
    assert(crate::transform::pass_step(pass, tr[k], tr[k + 1]));
    let prev = tr[n - 1];
    let mid = RewritingCtx { ctx: tr[n].ctx, block: tr[n].block, op: prev.op };
    assert(pass.spec_applied(prev, mid));
    let ch = choose|ch: Seq<RewritingCtx>|
        #[trigger] crate::rewrite::rules_chain(pass.rules@, ch) && ch[0] == prev && ch[ch.len()
            - 1] == mid;
    assert(crate::rewrite::rules_chain(pass.rules@, ch));
    assert(ch.len() == 2);
    assert(pass.rules@[0].spec_apply(ch[0], ch[1]));
    assert(ch[1] == mid);
    assert(prev.cur_ptr() == cur);
    assert(prev.cur_op() == ctx0.operations@[cur.idx as int]);
    assert(prev.cur_op().name@ != "func.func"@) by {
        reveal_strlit("func.func");
        reveal_strlit("func.ret");
        assert("func.func"@.len() == 9);
        assert("func.ret"@.len() == 8);
    }
    assert(ret_lowered(prev, mid));
    lemma_chain_pos_unique(block0.chain@, cur, m - 1);
    let p_ax = Ptr { idx: ctx0.operations@.len() as usize };
    let p_mov = Ptr { idx: (ctx0.operations@.len() + 1) as usize };
    assert(mid.block.chain@ =~= block0.chain@.insert(m - 1, p_ax).insert(m, p_mov));
    assert(block1.chain@ == mid.block.chain@);
    assert(block1.chain@[m - 1] == p_ax);
    assert(block1.chain@[m] == p_mov);
    assert(block1.chain@[m + 1] == cur) by {
        assert(block0.chain@.insert(m - 1, p_ax)[m] == cur);
    }
    assert forall|q: int| 0 <= q < m - 1 implies block1.chain@[q] == block0.chain@[q] by {
        assert(block0.chain@.insert(m - 1, p_ax)[q] == block0.chain@[q]);
    }
    assert(tr[n].ctx == ctx1);
}

/// Along a driver trace of the unary-arithmetic pass, the storage order
/// never changes and a stored operation that the rule does not recognise
/// keeps its content, step by step.
proof fn lemma_unary_trace_foreign(
    ctx0: Ctx,
    block0: Block,
    pass: RewriteRuleSet<LowerBinop>,
    tr: Seq<RewritingCtx>,
    s: int,
    i: int,
)
    requires
        pass.rules@.len() == 1,
        crate::transform::driver_trace(pass, tr, ctx0, block0),
        0 <= s < ctx0.operations@.len(),
        !unary_trigger(ctx0.operations@[s]),
        0 <= i < tr.len(),
    ensures
        tr[i].ctx.operations@.len() >= ctx0.operations@.len(),
        tr[i].block.ops == block0.ops,
        op_content_eq(tr[i].ctx.operations@[s], ctx0.operations@[s]),
    decreases i,
{
    if i == 0 {
        assert(tr[0] == (RewritingCtx {
            ctx: ctx0,
            block: block0,
            op: crate::ctx::Ptr { idx: 0 },
        }));
    } else {
        lemma_unary_trace_foreign(ctx0, block0, pass, tr, s, i - 1);
        let k = i - 1;
        assert(crate::transform::pass_step(pass, tr[k], tr[k + 1]));
        assert(crate::transform::pass_step(pass, tr[i - 1], tr[i]));
        let prev = tr[i - 1];
        let mid = RewritingCtx { ctx: tr[i].ctx, block: tr[i].block, op: prev.op };
        assert(pass.spec_applied(prev, mid));
        let ch = choose|ch: Seq<RewritingCtx>|
            #[trigger] crate::rewrite::rules_chain(pass.rules@, ch) && ch[0] == prev && ch[ch.len()
                - 1] == mid;
        assert(crate::rewrite::rules_chain(pass.rules@, ch));
        assert(ch.len() == 2);
        assert(pass.rules@[0].spec_apply(ch[0], ch[1]));
        assert(ch[1] == mid);
        if unary_trigger(prev.cur_op()) {
            assert(unary_lowered(prev, mid));
            // the slot under the cursor triggered, so it cannot be `s`,
            // whose content never matches the pattern
            assert(prev.cur_ptr().idx != s) by {
                if prev.cur_ptr().idx == s {
                    assert(op_content_eq(prev.ctx.operations@[s], ctx0.operations@[s]));
                    assert(!unary_trigger(prev.cur_op()));
                }
            }
            assert(op_content_eq(mid.ctx.operations@[s], prev.ctx.operations@[s]));
        } else {
            assert(mid == prev);
        }
        assert(tr[i].ctx == mid.ctx);
        assert(tr[i].block == mid.block);
    }
}

/// Foreign operations survive a pass: however the unary-arithmetic rule
/// set rewrites a block around them, every stored operation that the
/// rule does not recognise keeps its content — name, operands, result,
/// attributes and regions. The trace `tr` is the one
/// [`crate::transform::rewrite_ops`]'s contract guarantees to exist.
pub proof fn lemma_unary_pass_preserves_foreign(
    ctx0: Ctx,
    block0: Block,
    pass: RewriteRuleSet<LowerBinop>,
    tr: Seq<RewritingCtx>,
    ctx1: Ctx,
    s: int,
)
    requires
        pass.rules@.len() == 1,
        crate::transform::driver_trace(pass, tr, ctx0, block0),
        tr[tr.len() - 1].ctx == ctx1,
        0 <= s < ctx0.operations@.len(),
        !unary_trigger(ctx0.operations@[s]),
    ensures
        ctx1.operations@.len() >= ctx0.operations@.len(),
        op_content_eq(ctx1.operations@[s], ctx0.operations@[s]),
{
    lemma_unary_trace_foreign(ctx0, block0, pass, tr, s, tr.len() - 1);
}


/// The function-lowering scenario, end to end through the tree driver
/// [`crate::transform::rewrite_tree`]: a module block holding one
/// function definition whose entry sequence ends in a one-operand
/// `func.ret` — the shape the front end builds for a main function
/// returning a constant — comes out of one function+return-lowering pass
/// with the entry sequence opening on the four-operation prologue and
/// closing on the read of the return register, the move of the operand
/// into it, and the bare target return. The trace `tr` and the descent
/// are the ones the driver's contract guarantees to exist.
#[verifier::rlimit(100)]
#[verifier::spinoff_prover]
pub proof fn lemma_main_lowering_scenario(
    ctx0: Ctx,
    block0: Block,
    pass: RewriteRuleSet<LowerFunc>,
    tr: Seq<RewritingCtx>,
    ctx1: Ctx,
    block1: Block,
)
    requires
        block_wf(block0, ctx0.operations@),
        crate::transform::regions_wf(ctx0.operations@, block0.chain@),
        pass.rules@.len() == 1,
        block0.ops@.len() == 1,
        ({
            let fop = ctx0.operations@[block0.ops@[0].idx as int];
            let entry = fop.blocks@[0];
            &&& fop.name@ == "func.func"@
            &&& fop.blocks@.len() == 1
            &&& entry.ops@.len() >= 1
            &&& entry.chain@ == entry.ops@
            &&& forall|qq: int|
                0 <= qq < entry.ops@.len() ==> (#[trigger] ctx0.operations@[entry.ops@[
                    qq
                ].idx as int]).blocks@.len() == 0
            &&& forall|qq: int|
                0 <= qq < entry.ops@.len() - 1 ==> !func_trigger(
                    ctx0.operations@[(#[trigger] entry.ops@[qq]).idx as int],
                )
            &&& ctx0.operations@[entry.ops@[entry.ops@.len() - 1].idx as int].name@ == "func.ret"@
            &&& ctx0.operations@[entry.ops@[entry.ops@.len() - 1].idx as int].operands@.len() == 1
        }),
        crate::transform::driver_trace(pass, tr, ctx0, block0),
        crate::transform::descent_rel(
            pass,
            tr[tr.len() - 1].ctx,
            tr[tr.len() - 1].block,
            ctx1,
            block1,
        ),
    ensures
        ({
            let z = block0.ops@[0];
            let entry0 = ctx0.operations@[z.idx as int].blocks@[0];
            let m = entry0.chain@.len() as int;
            let entry1 = ctx1.operations@[z.idx as int].blocks@[0];
            let val = ctx0.operations@[entry0.ops@[entry0.ops@.len() - 1].idx as int].operands@[0];
            let reg_read = ctx1.operations@[entry1.chain@[m + 3].idx as int];
            let moved = ctx1.operations@[entry1.chain@[m + 4].idx as int];
            let target = ctx1.operations@[entry1.chain@[m + 5].idx as int];
            &&& ctx1.operations@[z.idx as int].blocks@.len() == 1
            &&& entry1.chain@.len() == m + 6
            &&& prologue_shape(ctx1.operations@, entry1.chain@)
            &&& reg_read.name@ == "x86.ax"@
            &&& reg_read.operands@.len() == 0
            &&& moved.name@ == "x86.mov"@
            &&& moved.operands@ =~= seq![val, reg_read.result->Some_0]
            &&& target.name@ == "x86.ret"@
            &&& target.operands@.len() == 0
            &&& target.result is None
        }),
{
    let z = block0.ops@[0];
    let cm = tr[tr.len() - 1].ctx;
    let bm = tr[tr.len() - 1].block;
    let entry0 = ctx0.operations@[z.idx as int].blocks@[0];
    let m = entry0.chain@.len() as int;
    let start = RewritingCtx { ctx: ctx0, block: block0, op: crate::ctx::Ptr { idx: 0 } };
    let mid = RewritingCtx { ctx: cm, block: bm, op: crate::ctx::Ptr { idx: 0 } };
    lemma_single_step_run(ctx0, block0, pass, tr, cm, bm);
    assert(start.cur_ptr() == z);
    assert(func_def_lowered(start, mid));
    assert(block0.chain@.contains(z));
    let wz = choose|wz: int| 0 <= wz < block0.chain@.len() && block0.chain@[wz] == z;
    assert(block0.chain@[wz] == z);
    assert(z.idx < ctx0.operations@.len());
    // the flat pass left the module block's one slot with its grown entry
    let entry_mid = cm.operations@[z.idx as int].blocks@[0];
    assert(cm.operations@[z.idx as int].blocks@.len() == 1);
    assert(entry_mid.chain@.len() == m + 4);
    assert(entry_mid.chain@.skip(4) == entry0.chain@);
    assert(entry_mid.ops == entry0.ops);
    assert(prologue_shape(cm.operations@, entry_mid.chain@));
    // the driver step pinned the storage order
    assert(crate::transform::pass_step(pass, tr[0], tr[1]));
    assert(bm.ops == block0.ops);
    // entry members sit in the entry order, apart from the function slot
    assert(block_wf(entry0, ctx0.operations@));
    assert(crate::transform::chains_disjoint(entry0.chain@, block0.chain@));
    assert forall|qq: int| 0 <= qq < entry0.ops@.len() implies {
        &&& (#[trigger] entry0.ops@[qq]).idx != z.idx
        &&& entry0.ops@[qq].idx < ctx0.operations@.len()
        &&& op_content_eq(
            cm.operations@[entry0.ops@[qq].idx as int],
            ctx0.operations@[entry0.ops@[qq].idx as int],
        )
    } by {
        let h = entry0.ops@[qq];
        assert(entry0.chain@.contains(h));
        let wh = choose|wh: int| 0 <= wh < entry0.chain@.len() && entry0.chain@[wh] == h;
        assert(entry0.chain@[wh] == h);
        assert(h.idx != z.idx) by {
            if h.idx == z.idx {
                assert(!block0.chain@.contains(h));
            }
        }
    }
    // the descent is laid open: one operation, one region, flat members
    assert(crate::transform::region_members_flat(cm.operations@, entry_mid));
    assert(crate::transform::descent_exposed(pass, cm, bm, ctx1));
    let (cd, str): (Ctx, Seq<RewritingCtx>) = choose|cd: Ctx, str: Seq<RewritingCtx>|
        {
            &&& crate::transform::detached_at(cm, bm.ops@[0], cd)
            &&& block_wf(cm.operations@[bm.ops@[0].idx as int].blocks@[0], cd.operations@)
            &&& #[trigger] crate::transform::driver_trace(
                pass,
                str,
                cd,
                cm.operations@[bm.ops@[0].idx as int].blocks@[0],
            )
            &&& crate::transform::reattached_at(
                str[str.len() - 1].ctx,
                bm.ops@[0],
                str[str.len() - 1].block,
                ctx1,
            )
        };
    assert(crate::transform::detached_at(cm, z, cd) && block_wf(entry_mid, cd.operations@)
        && crate::transform::driver_trace(pass, str, cd, entry_mid)
        && crate::transform::reattached_at(
        str[str.len() - 1].ctx,
        z,
        str[str.len() - 1].block,
        ctx1,
    ));
    let ce = str[str.len() - 1].ctx;
    let re = str[str.len() - 1].block;
    let n0 = entry_mid.ops@.len() as int;
    let cur = entry_mid.ops@[n0 - 1];
    // the lowering of the trailing return, through the sub-walk
    assert(entry_mid.chain@[m + 3] == entry0.chain@[m - 1]) by {
        assert(entry_mid.chain@.skip(4)[m - 1] == entry_mid.chain@[m + 3]);
    }
    assert(entry_mid.chain@[entry_mid.chain@.len() - 1] == entry_mid.ops@[n0 - 1]);
    assert forall|qq: int|
        0 <= qq < entry_mid.ops@.len() - 1 implies !func_trigger(
        cd.operations@[(#[trigger] entry_mid.ops@[qq]).idx as int],
    ) by {
        let h = entry_mid.ops@[qq];
        assert(op_content_eq(cm.operations@[h.idx as int], ctx0.operations@[h.idx as int]));
        assert(cd.operations@[h.idx as int] == cm.operations@[h.idx as int]);
        assert(!func_trigger(ctx0.operations@[h.idx as int]));
        assert(cd.operations@[h.idx as int].name == ctx0.operations@[h.idx as int].name);
        assert(cd.operations@[h.idx as int].operands == ctx0.operations@[h.idx as int].operands);
        reveal_strlit("func.func");
        reveal_strlit("func.ret");
    }
    assert(cd.operations@[cur.idx as int].name@ == "func.ret"@);
    assert(cd.operations@[cur.idx as int].operands@.len() == 1);
    lemma_function_pass_lowers_trailing_ret(cd, entry_mid, pass, str, ce, re);
    // hang the lowered entry back and read the final shape
    assert(op_content_eq(ce.operations@[z.idx as int], cd.operations@[z.idx as int])) by {
        assert(z.idx != cur.idx) by {
            assert(entry0.chain@.contains(entry0.ops@[n0 - 1]));
        }
    }
    assert(ce.operations@[z.idx as int].blocks@.len() == 0);
    assert(ctx1.operations@[z.idx as int].blocks@ == ce.operations@[
        z.idx as int
    ].blocks@.insert(0, re));
    assert(ctx1.operations@[z.idx as int].blocks@.len() == 1);
    let entry1 = ctx1.operations@[z.idx as int].blocks@[0];
    assert(entry1 == re);
    assert(re.chain@.len() == (m + 4) + 2);
    // a member of the lowered entry order is a prologue slot, an old
    // entry member, or one of the two fresh splices: never the function
    // slot itself
    assert(cd.operations@.len() == ctx0.operations@.len() + 4);
    vstd::std_specs::vec::axiom_spec_len(&ctx1.operations);
    assert(ce.operations@.len() == cd.operations@.len() + 2);
    assert(ce.operations@.len() == ctx1.operations@.len());
    assert(cd.operations@.len() + 2 <= usize::MAX);
    assert forall|t: int| 0 <= t < re.chain@.len() implies (#[trigger] re.chain@[t]).idx
        != z.idx by {
        let h = re.chain@[t];
        if t < m + 3 {
            assert(re.chain@[t] == entry_mid.chain@[t]);
            if t < 4 {
                assert(entry_mid.chain@[t].idx >= ctx0.operations@.len());
            } else {
                assert(entry_mid.chain@.skip(4)[t - 4] == entry_mid.chain@[t]);
                assert(entry0.chain@[t - 4] == h);
                assert(entry0.ops@[t - 4] == h);
                assert(h.idx != z.idx);
            }
        } else if t == m + 3 {
            assert(h == (Ptr { idx: cd.operations@.len() as usize }));
        } else if t == m + 4 {
            assert(h == (Ptr { idx: (cd.operations@.len() + 1) as usize }));
        } else {
            assert(t == m + 5);
            assert(re.chain@[(m + 4) + 1] == cur);
            assert(cur == entry0.ops@[n0 - 1]);
        }
    }
    assert forall|t: int| 0 <= t < re.chain@.len() implies ctx1.operations@[(
    #[trigger] re.chain@[t]).idx as int] == ce.operations@[re.chain@[t].idx as int] by {}
    assert(prologue_shape(ctx1.operations@, entry1.chain@)) by {
        assert(prologue_shape(cd.operations@, entry_mid.chain@)) by {
            assert forall|t: int|
                0 <= t < 4 implies cd.operations@[(#[trigger] entry_mid.chain@[t]).idx as int]
                == cm.operations@[entry_mid.chain@[t].idx as int] by {
                let h = entry_mid.chain@[t];
                assert(h.idx != z.idx) by {
                    if h.idx == z.idx {
                        assert(entry_mid.chain@.contains(h));
                        assert(crate::transform::chains_disjoint(entry_mid.chain@, bm.chain@));
                        assert(bm.chain@.contains(z));
                    }
                }
            }
        }
        assert forall|t: int| 0 <= t < 4 implies op_content_eq(
            ctx1.operations@[(#[trigger] entry1.chain@[t]).idx as int],
            cd.operations@[entry1.chain@[t].idx as int],
        ) && entry1.chain@[t] == entry_mid.chain@[t] by {
            assert(re.chain@[t] == entry_mid.chain@[t]);
            let h = re.chain@[t];
            assert(op_content_eq(ce.operations@[h.idx as int], cd.operations@[h.idx as int]))
                by {
                assert(h.idx != cur.idx) by {
                    assert(h.idx >= ctx0.operations@.len());
                    assert(cur == entry0.ops@[n0 - 1]);
                    assert(entry0.chain@.contains(cur));
                    let wc = choose|wc: int|
                        0 <= wc < entry0.chain@.len() && entry0.chain@[wc] == cur;
                    assert(entry0.chain@[wc] == cur);
                    assert(block_wf(entry0, ctx0.operations@));
                    assert(cur.idx < ctx0.operations@.len());
                }
            }
            assert(ctx1.operations@[h.idx as int] == ce.operations@[h.idx as int]);
        }
    }
    assert(re.chain@[m + 3].idx == cd.operations@.len());
    assert(re.chain@[m + 5] == cur) by {
        assert(re.chain@[(m + 4) + 1] == cur);
    }
}

} // verus!
