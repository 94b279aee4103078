//! Lowering the function dialect: prologue synthesis for function bodies
//! and return lowering.

use vstd::prelude::*;

use crate::ctx::{Ctx, Ptr};
use crate::ir::{op_content_eq, Block, Operation};
use crate::link::{block_wf, chain_pos, lemma_chain_pos_unique};
use crate::rewrite::RewriteRule;
use crate::text::str_eq;
use crate::transform::RewritingCtx;

use super::x86::{ax, mov, pushq, rbp, rsp, ret as x86_ret};

verus! {

/// The operations the function rule recognises: a function definition,
/// whose entry sequence receives the prologue, and `func.ret` with its
/// one operand.
pub open spec fn func_trigger(op: Operation) -> bool {
    ||| op.name@ == "func.func"@
    ||| (op.name@ == "func.ret"@ && op.operands@.len() == 1)
}

/// The first four operations of the chain `ch` spell the prologue: read
/// the frame pointer, read the stack pointer, push the frame-pointer
/// value, move the stack-pointer value into the frame-pointer value.
pub open spec fn prologue_shape(ops: Seq<Operation>, ch: Seq<Ptr>) -> bool {
    &&& ch.len() >= 4
    &&& ops[ch[0].idx as int].name@ == "x86.rbp"@
    &&& ops[ch[1].idx as int].name@ == "x86.rsp"@
    &&& ops[ch[2].idx as int].name@ == "x86.pushq"@
    &&& ops[ch[3].idx as int].name@ == "x86.mov"@
    &&& ops[ch[0].idx as int].result is Some
    &&& ops[ch[1].idx as int].result is Some
    &&& ops[ch[2].idx as int].operands@ =~= seq![ops[ch[0].idx as int].result->Some_0]
    &&& ops[ch[3].idx as int].operands@ =~= seq![
        ops[ch[1].idx as int].result->Some_0,
        ops[ch[0].idx as int].result->Some_0,
    ]
    &&& ops[ch[3].idx as int].result == Some(ops[ch[0].idx as int].result->Some_0)
}

/// Injects the standard prologue at the very front of `block`: read the
/// frame pointer, read the stack pointer, push the old frame pointer,
/// move the stack pointer into the frame pointer.
#[verifier::rlimit(100)]
#[verifier::spinoff_prover]
pub fn inject_prologue(ctx: &mut Ctx, block: &mut Block)
    requires
        block_wf(*old(block), old(ctx).operations@),
    ensures
        block_wf(*final(block), final(ctx).operations@),
        final(ctx).operations@.len() == old(ctx).operations@.len() + 4,
        final(ctx).blocks == old(ctx).blocks,
        final(block).id == old(block).id,
        final(block).ops == old(block).ops,
        final(block).chain@.len() == old(block).chain@.len() + 4,
        final(block).chain@.skip(4) =~= old(block).chain@,
        forall|t: int|
            0 <= t < 4 ==> (#[trigger] final(block).chain@[t]).idx >= old(ctx).operations@.len(),
        prologue_shape(final(ctx).operations@, final(block).chain@),
        forall|t: int|
            old(ctx).operations@.len() <= t < final(ctx).operations@.len() ==> (#[trigger] final(ctx).operations@[t]).blocks@.len() == 0,
        forall|j: int|
            0 <= j < old(ctx).operations@.len() && old(block).head != Some(
                Ptr { idx: j as usize },
            ) ==> final(ctx).operations@[j] == old(ctx).operations@[j],
        forall|j: int|
            0 <= j < old(ctx).operations@.len() ==> op_content_eq(
                #[trigger] final(ctx).operations@[j],
                old(ctx).operations@[j],
            ),
{
    let rbp_op = rbp(&mut ctx.values);
    let rbp_val = rbp_op.get_result();
    let rsp_op = rsp(&mut ctx.values);
    let rsp_val = rsp_op.get_result();
    let ghost ops0 = ctx.operations@;
    let ghost head0 = block.head;
    let p4 = block.prepend(ctx, mov(rsp_val, rbp_val));
    proof {
        assert forall|j: int|
            0 <= j < ops0.len() && head0 != Some(Ptr { idx: j as usize }) implies
            ctx.operations@[j] == ops0[j] by {}
    }
    let p3 = block.prepend(ctx, pushq(rbp_val));
    let p2 = block.prepend(ctx, rsp_op);
    let p1 = block.prepend(ctx, rbp_op);
    proof {
        assert(block.chain@ =~= seq![p1, p2, p3, p4] + old(block).chain@);
        assert(block.chain@.skip(4) =~= old(block).chain@);
        assert(ctx.operations@[p1.idx as int].name@ == "x86.rbp"@);
        assert(ctx.operations@[p2.idx as int].name@ == "x86.rsp"@);
        assert(ctx.operations@[p3.idx as int].name@ == "x86.pushq"@);
        assert(ctx.operations@[p4.idx as int].name@ == "x86.mov"@);
        assert(ctx.operations@[p3.idx as int].operands@ =~= seq![rbp_val]);
        assert(ctx.operations@[p4.idx as int].operands@ =~= seq![rsp_val, rbp_val]);
    }
}

/// What lowering one `func.ret` does: a read of the return register and
/// a `mov` of the operand into it are spliced immediately before the
/// cursor, in that order, and the operation itself becomes a target
/// `ret`.
pub open spec fn ret_lowered(pre: RewritingCtx, post: RewritingCtx) -> bool {
    let cur = pre.cur_ptr();
    let k = chain_pos(pre.block.chain@, cur);
    let p_ax = Ptr { idx: pre.ctx.operations@.len() as usize };
    let p_mov = Ptr { idx: (pre.ctx.operations@.len() + 1) as usize };
    let val = pre.cur_op().operands@[0];
    let reg_read = post.ctx.operations@[p_ax.idx as int];
    let moved = post.ctx.operations@[p_mov.idx as int];
    let target = post.ctx.operations@[cur.idx as int];
    &&& post.ctx.operations@.len() == pre.ctx.operations@.len() + 2
    &&& post.block.chain@ =~= pre.block.chain@.insert(k, p_ax).insert(k + 1, p_mov)
    &&& reg_read.name@ == "x86.ax"@
    &&& reg_read.operands@.len() == 0
    &&& reg_read.result matches Some(a) && a.id == pre.ctx.values.next
    &&& moved.name@ == "x86.mov"@
    &&& moved.operands@ =~= seq![val, reg_read.result->Some_0]
    &&& moved.result == reg_read.result
    &&& target.name@ == "x86.ret"@
    &&& target.operands@.len() == 0
    &&& target.result is None
    &&& post.block.ops == pre.block.ops
    &&& post.block.id == pre.block.id
    &&& post.op == pre.op
    &&& forall|j: int|
        0 <= j < pre.ctx.operations@.len() && j != cur.idx && pre.cur_op().behind != Some(
            Ptr { idx: j as usize },
        ) ==> post.ctx.operations@[j] == pre.ctx.operations@[j]
    &&& forall|j: int|
        0 <= j < pre.ctx.operations@.len() && j != cur.idx ==> op_content_eq(
            #[trigger] post.ctx.operations@[j],
            pre.ctx.operations@[j],
        )
}

/// Detaching the first region of the operation at `cur` (all links kept,
/// only that operation's region list shortened) keeps the outer order,
/// the detached region, and every remaining region well formed, the
/// latter pairwise disjoint and clear of both the outer order and the
/// detached chain.
#[verifier::rlimit(100)]
#[verifier::spinoff_prover]
proof fn lemma_detach_entry(ops0: Seq<Operation>, ops1: Seq<Operation>, ch: Seq<Ptr>, cur: Ptr, b0: Block)
    requires
        crate::link::chain_links(ch, ops0),
        crate::transform::regions_wf(ops0, ch),
        cur.idx < ops0.len(),
        ops0[cur.idx as int].blocks@.len() > 0,
        b0 == ops0[cur.idx as int].blocks@[0],
        ops1.len() == ops0.len(),
        forall|i: int|
            0 <= i < ops1.len() ==> (#[trigger] ops1[i]).ahead == ops0[i].ahead && ops1[i].behind
                == ops0[i].behind,
        forall|i: int|
            0 <= i < ops1.len() && i != cur.idx ==> (#[trigger] ops1[i]).blocks == ops0[i].blocks,
        ops1[cur.idx as int].blocks@ =~= ops0[cur.idx as int].blocks@.drop_first(),
    ensures
        crate::link::chain_links(ch, ops1),
        block_wf(b0, ops1),
        crate::transform::regions_wf(ops1, ch),
        forall|i: int, j: int|
            0 <= i < ops1.len() && 0 <= j < ops1[i].blocks@.len() ==> crate::transform::chains_disjoint(
                (#[trigger] ops1[i].blocks@[j]).chain@,
                b0.chain@,
            ),
{
    assert(crate::link::chain_links(ch, ops1)) by {
        assert forall|q: int| 0 <= q < ch.len() implies {
            let h = #[trigger] ch[q];
            &&& h.idx < ops1.len()
            &&& ops1[h.idx as int].ahead == (if q + 1 < ch.len() {
                Some(ch[q + 1])
            } else {
                None::<Ptr>
            })
            &&& ops1[h.idx as int].behind == (if 0 < q {
                Some(ch[q - 1])
            } else {
                None::<Ptr>
            })
        } by {}
    }
    assert(block_wf(b0, ops0));
    assert(block_wf(b0, ops1)) by {
        assert forall|q: int| 0 <= q < b0.chain@.len() implies {
            let h = #[trigger] b0.chain@[q];
            &&& h.idx < ops1.len()
            &&& ops1[h.idx as int].ahead == (if q + 1 < b0.chain@.len() {
                Some(b0.chain@[q + 1])
            } else {
                None::<Ptr>
            })
            &&& ops1[h.idx as int].behind == (if 0 < q {
                Some(b0.chain@[q - 1])
            } else {
                None::<Ptr>
            })
        } by {}
    }
    assert forall|i: int, j: int|
        0 <= i < ops1.len() && 0 <= j < ops1[i].blocks@.len() implies block_wf(
        #[trigger] ops1[i].blocks@[j],
        ops1,
    ) && crate::transform::chains_disjoint((#[trigger] ops1[i].blocks@[j]).chain@, ch)
        && crate::transform::chains_disjoint((#[trigger] ops1[i].blocks@[j]).chain@, b0.chain@) by {
        let nb = ops1[i].blocks@[j];
        let ja = if i == cur.idx {
            j + 1
        } else {
            j
        };
        assert(nb == ops0[i].blocks@[ja]);
        assert(block_wf(nb, ops0));
        assert(!(i == cur.idx && ja == 0));
        assert forall|q: int| 0 <= q < nb.chain@.len() implies {
            let h = #[trigger] nb.chain@[q];
            &&& h.idx < ops1.len()
            &&& ops1[h.idx as int].ahead == (if q + 1 < nb.chain@.len() {
                Some(nb.chain@[q + 1])
            } else {
                None::<Ptr>
            })
            &&& ops1[h.idx as int].behind == (if 0 < q {
                Some(nb.chain@[q - 1])
            } else {
                None::<Ptr>
            })
        } by {}
    }
    assert forall|i: int, j: int, i2: int, j2: int|
        0 <= i < ops1.len() && 0 <= j < ops1[i].blocks@.len() && 0 <= i2 < ops1.len() && 0 <= j2
            < ops1[i2].blocks@.len() && !(i == i2 && j == j2) implies
        crate::transform::chains_disjoint(
        (#[trigger] ops1[i].blocks@[j]).chain@,
        (#[trigger] ops1[i2].blocks@[j2]).chain@,
    ) by {
        let ja = if i == cur.idx {
            j + 1
        } else {
            j
        };
        let jb = if i2 == cur.idx {
            j2 + 1
        } else {
            j2
        };
        assert(ops1[i].blocks@[j] == ops0[i].blocks@[ja]);
        assert(ops1[i2].blocks@[j2] == ops0[i2].blocks@[jb]);
    }
}

/// Injecting the prologue into the detached entry region (which touches
/// only that region's own slots and fresh ones) and hanging the grown
/// region back at the front of the operation's region list restores the
/// whole invariant: outer order, every region, and their disjointness.
#[verifier::rlimit(100)]
#[verifier::spinoff_prover]
proof fn lemma_reattach_entry(
    ops1: Seq<Operation>,
    ops2: Seq<Operation>,
    ops3: Seq<Operation>,
    ch: Seq<Ptr>,
    cur: Ptr,
    b0: Block,
    b2: Block,
)
    requires
        crate::link::chain_links(ch, ops1),
        crate::transform::regions_wf(ops1, ch),
        forall|i: int, j: int|
            0 <= i < ops1.len() && 0 <= j < ops1[i].blocks@.len() ==> crate::transform::chains_disjoint(
                (#[trigger] ops1[i].blocks@[j]).chain@,
                b0.chain@,
            ),
        crate::transform::chains_disjoint(b0.chain@, ch),
        block_wf(b0, ops1),
        cur.idx < ops1.len(),
        // what the injection did
        ops2.len() == ops1.len() + 4,
        block_wf(b2, ops2),
        b2.chain@.len() == b0.chain@.len() + 4,
        b2.chain@.skip(4) =~= b0.chain@,
        forall|t: int| 0 <= t < 4 ==> (#[trigger] b2.chain@[t]).idx >= ops1.len(),
        forall|j: int|
            0 <= j < ops1.len() && b0.head != Some(Ptr { idx: j as usize }) ==> ops2[j] == ops1[j],
        forall|j: int|
            0 <= j < ops1.len() ==> (#[trigger] ops2[j]).blocks == ops1[j].blocks,
        forall|t: int|
            ops1.len() <= t < ops2.len() ==> (#[trigger] ops2[t]).blocks@.len() == 0,
        // what hanging the region back did
        ops3.len() == ops2.len(),
        forall|i: int|
            0 <= i < ops3.len() ==> (#[trigger] ops3[i]).ahead == ops2[i].ahead && ops3[i].behind
                == ops2[i].behind,
        forall|i: int|
            0 <= i < ops3.len() && i != cur.idx ==> (#[trigger] ops3[i]).blocks == ops2[i].blocks,
        ops3[cur.idx as int].blocks@ =~= ops2[cur.idx as int].blocks@.insert(0, b2),
    ensures
        crate::link::chain_links(ch, ops3),
        block_wf(b2, ops3),
        crate::transform::regions_wf(ops3, ch),
{
    let hb = b0.head;
    assert(crate::link::chain_links(ch, ops2)) by {
        assert forall|q: int| 0 <= q < ch.len() implies {
            let h = #[trigger] ch[q];
            &&& h.idx < ops2.len()
            &&& ops2[h.idx as int].ahead == (if q + 1 < ch.len() {
                Some(ch[q + 1])
            } else {
                None::<Ptr>
            })
            &&& ops2[h.idx as int].behind == (if 0 < q {
                Some(ch[q - 1])
            } else {
                None::<Ptr>
            })
        } by {
            let h = ch[q];
            assert(ch.contains(h));
            assert(!b0.chain@.contains(h));
            if b0.chain@.len() > 0 {
                assert(b0.chain@.contains(b0.chain@[0]));
            }
        }
    }
    assert(crate::link::chain_links(ch, ops3)) by {
        assert forall|q: int| 0 <= q < ch.len() implies {
            let h = #[trigger] ch[q];
            &&& h.idx < ops3.len()
            &&& ops3[h.idx as int].ahead == (if q + 1 < ch.len() {
                Some(ch[q + 1])
            } else {
                None::<Ptr>
            })
            &&& ops3[h.idx as int].behind == (if 0 < q {
                Some(ch[q - 1])
            } else {
                None::<Ptr>
            })
        } by {}
    }
    assert(block_wf(b2, ops3)) by {
        assert forall|q: int| 0 <= q < b2.chain@.len() implies {
            let h = #[trigger] b2.chain@[q];
            &&& h.idx < ops3.len()
            &&& ops3[h.idx as int].ahead == (if q + 1 < b2.chain@.len() {
                Some(b2.chain@[q + 1])
            } else {
                None::<Ptr>
            })
            &&& ops3[h.idx as int].behind == (if 0 < q {
                Some(b2.chain@[q - 1])
            } else {
                None::<Ptr>
            })
        } by {}
    }
    // where the handles of the grown entry region come from
    assert forall|x: Ptr| b2.chain@.contains(x) implies b0.chain@.contains(x) || x.idx
        >= ops1.len() by {
        let w = choose|w: int| 0 <= w < b2.chain@.len() && b2.chain@[w] == x;
        assert(b2.chain@[w] == x);
        if w >= 4 {
            assert(b2.chain@.skip(4)[w - 4] == x);
        } else {
            assert(block_wf(b2, ops2));
        }
    }
    assert forall|x: Ptr| b2.chain@.contains(x) && x.idx < ops1.len() implies b0.chain@.contains(
        x,
    ) by {
        let w = choose|w: int| 0 <= w < b2.chain@.len() && b2.chain@[w] == x;
        assert(b2.chain@[w] == x);
        if w >= 4 {
            assert(b2.chain@.skip(4)[w - 4] == x);
        } else {
            assert(block_wf(b2, ops2));
            assert(x.idx < ops2.len());
        }
    }
    assert(crate::transform::regions_wf(ops3, ch)) by {
        assert forall|i: int, j: int|
            0 <= i < ops3.len() && 0 <= j < ops3[i].blocks@.len() implies block_wf(
            #[trigger] ops3[i].blocks@[j],
            ops3,
        ) && crate::transform::chains_disjoint((#[trigger] ops3[i].blocks@[j]).chain@, ch) by {
            let nb = ops3[i].blocks@[j];
            if i == cur.idx && j == 0 {
                assert(nb == b2);
                assert forall|x: Ptr| nb.chain@.contains(x) implies !ch.contains(x) by {
                    if ch.contains(x) {
                        let w = choose|w: int| 0 <= w < ch.len() && ch[w] == x;
                        assert(ch[w] == x);
                        assert(x.idx < ops1.len());
                    }
                }
            } else {
                let ja = if i == cur.idx {
                    j - 1
                } else {
                    j
                };
                assert(nb == ops2[i].blocks@[ja]);
                assert(nb == ops1[i].blocks@[ja]);
                assert(block_wf(nb, ops1));
                assert(crate::transform::chains_disjoint(nb.chain@, b0.chain@));
                assert forall|q: int| 0 <= q < nb.chain@.len() implies {
                    let h = #[trigger] nb.chain@[q];
                    &&& h.idx < ops3.len()
                    &&& ops3[h.idx as int].ahead == (if q + 1 < nb.chain@.len() {
                        Some(nb.chain@[q + 1])
                    } else {
                        None::<Ptr>
                    })
                    &&& ops3[h.idx as int].behind == (if 0 < q {
                        Some(nb.chain@[q - 1])
                    } else {
                        None::<Ptr>
                    })
                } by {
                    let h = nb.chain@[q];
                    assert(nb.chain@.contains(h));
                    assert(!b0.chain@.contains(h));
                    if b0.chain@.len() > 0 {
                        assert(b0.chain@.contains(b0.chain@[0]));
                    }
                }
            }
        }
        assert forall|i: int, j: int, i2: int, j2: int|
            0 <= i < ops3.len() && 0 <= j < ops3[i].blocks@.len() && 0 <= i2 < ops3.len() && 0
                <= j2 < ops3[i2].blocks@.len() && !(i == i2 && j == j2) implies
            crate::transform::chains_disjoint(
            (#[trigger] ops3[i].blocks@[j]).chain@,
            (#[trigger] ops3[i2].blocks@[j2]).chain@,
        ) by {
            let na = ops3[i].blocks@[j];
            let nb = ops3[i2].blocks@[j2];
            assert forall|x: Ptr| na.chain@.contains(x) implies !nb.chain@.contains(x) by {
                if nb.chain@.contains(x) {
                    if i == cur.idx && j == 0 {
                        let jb = if i2 == cur.idx {
                            j2 - 1
                        } else {
                            j2
                        };
                        assert(nb == ops1[i2].blocks@[jb]);
                        assert(block_wf(nb, ops1));
                        assert(crate::transform::chains_disjoint(nb.chain@, b0.chain@));
                        let w = choose|w: int| 0 <= w < nb.chain@.len() && nb.chain@[w] == x;
                        assert(nb.chain@[w] == x);
                        assert(x.idx < ops1.len());
                        assert(b0.chain@.contains(x));
                    } else if i2 == cur.idx && j2 == 0 {
                        let ja = if i == cur.idx {
                            j - 1
                        } else {
                            j
                        };
                        assert(na == ops1[i].blocks@[ja]);
                        assert(block_wf(na, ops1));
                        assert(crate::transform::chains_disjoint(na.chain@, b0.chain@));
                        let w = choose|w: int| 0 <= w < na.chain@.len() && na.chain@[w] == x;
                        assert(na.chain@[w] == x);
                        assert(x.idx < ops1.len());
                        assert(b0.chain@.contains(x));
                    } else {
                        let ja = if i == cur.idx {
                            j - 1
                        } else {
                            j
                        };
                        let jb = if i2 == cur.idx {
                            j2 - 1
                        } else {
                            j2
                        };
                        assert(na == ops2[i].blocks@[ja]);
                        assert(nb == ops2[i2].blocks@[jb]);
                        assert(!(i == i2 && ja == jb));
                    }
                }
            }
        }
    }
}

/// What lowering one function definition does: nothing without a body
/// region; otherwise the entry region keeps its members and gains the
/// standard prologue at its very front, while every other region and the
/// operation's own shape stay as they were.
pub open spec fn func_def_lowered(pre: RewritingCtx, post: RewritingCtx) -> bool {
    let cur = pre.cur_ptr();
    let pre_op = pre.cur_op();
    let post_op = post.ctx.operations@[cur.idx as int];
    if pre_op.blocks@.len() == 0 {
        post == pre
    } else {
        let entry_pre = pre_op.blocks@[0];
        let entry_post = post_op.blocks@[0];
        &&& post.ctx.operations@.len() == pre.ctx.operations@.len() + 4
        &&& post_op.blocks@.len() == pre_op.blocks@.len()
        &&& forall|j: int|
            1 <= j < pre_op.blocks@.len() ==> post_op.blocks@[j] == pre_op.blocks@[j]
        &&& entry_post.chain@.len() == entry_pre.chain@.len() + 4
        &&& entry_post.chain@.skip(4) =~= entry_pre.chain@
        &&& prologue_shape(post.ctx.operations@, entry_post.chain@)
        &&& forall|t: int|
            0 <= t < 4 ==> (#[trigger] entry_post.chain@[t]).idx >= pre.ctx.operations@.len()
        &&& entry_post.ops == entry_pre.ops
        &&& forall|t: int|
            pre.ctx.operations@.len() <= t < post.ctx.operations@.len() ==> (
            #[trigger] post.ctx.operations@[t]).blocks@.len() == 0
        &&& post_op.name == pre_op.name
        &&& post_op.operands == pre_op.operands
        &&& post_op.result == pre_op.result
        &&& post_op.attributes == pre_op.attributes
        &&& post_op.behind == pre_op.behind
        &&& post_op.ahead == pre_op.ahead
        &&& post.block.ops == pre.block.ops
        &&& post.block.id == pre.block.id
        &&& post.op == pre.op
        &&& forall|j: int|
            0 <= j < pre.ctx.operations@.len() && j != cur.idx && entry_pre.head != Some(
                Ptr { idx: j as usize },
            ) ==> post.ctx.operations@[j] == pre.ctx.operations@[j]
        &&& forall|j: int|
            0 <= j < pre.ctx.operations@.len() && j != cur.idx ==> op_content_eq(
                #[trigger] post.ctx.operations@[j],
                pre.ctx.operations@[j],
            )
    }
}

/// Lowers the function definition under the cursor: injects the prologue
/// into its entry region, leaving everything else in place.
#[verifier::rlimit(100)]
#[verifier::spinoff_prover]
fn lower_func_def(rctx: &mut RewritingCtx)
    requires
        old(rctx).wf(),
        old(rctx).op.idx < old(rctx).block.ops@.len(),
        old(rctx).cur_op().name@ == "func.func"@,
    ensures
        final(rctx).wf(),
        final(rctx).op == old(rctx).op,
        final(rctx).block.ops == old(rctx).block.ops,
        final(rctx).block.id == old(rctx).block.id,
        func_def_lowered(*old(rctx), *final(rctx)),
        crate::transform::engine_frame(
            old(rctx).ctx,
            old(rctx).block,
            final(rctx).ctx,
            final(rctx).block,
        ),
{
    let ghost cur = old(rctx).cur_ptr();
    let ghost ops0 = old(rctx).ctx.operations@;
    let ghost ch = old(rctx).block.chain@;
    proof {
        crate::transform::lemma_engine_frame_refl(rctx.ctx, rctx.block);
    }
    let has_region = rctx.get().blocks.len() > 0;
    if !has_region {
        return ;
    }
    proof {
        old(rctx).lemma_cur_in_range();
    }
    let op_ref = rctx.get_mut();
    let mut entry = op_ref.blocks.remove(0);
    let ghost ops1 = rctx.ctx.operations@;
    let ghost b0 = ops0[cur.idx as int].blocks@[0];
    proof {
        assert(entry == b0);
        assert(ops1[cur.idx as int].blocks@ =~= ops0[cur.idx as int].blocks@.drop_first()) by {
            assert(ops0[cur.idx as int].blocks@.remove(0) =~= ops0[
                cur.idx as int
            ].blocks@.drop_first());
        }
        lemma_detach_entry(ops0, ops1, ch, cur, b0);
        assert(crate::transform::chains_disjoint(b0.chain@, ch));
        assert(block_wf(rctx.block, ops1));
    }
    inject_prologue(&mut rctx.ctx, &mut entry);
    let ghost ops2 = rctx.ctx.operations@;
    let ghost b2 = entry;
    proof {
        // the outer order is outside the entry chain, so it survived
        assert(crate::link::chain_links(ch, ops2)) by {
            assert forall|q: int| 0 <= q < ch.len() implies {
                let h = #[trigger] ch[q];
                &&& h.idx < ops2.len()
                &&& ops2[h.idx as int].ahead == (if q + 1 < ch.len() {
                    Some(ch[q + 1])
                } else {
                    None::<Ptr>
                })
                &&& ops2[h.idx as int].behind == (if 0 < q {
                    Some(ch[q - 1])
                } else {
                    None::<Ptr>
                })
            } by {
                let h = ch[q];
                assert(ch.contains(h));
                assert(!b0.chain@.contains(h));
                if b0.chain@.len() > 0 {
                    assert(b0.chain@.contains(b0.chain@[0]));
                }
            }
        }
        assert(block_wf(rctx.block, ops2));
        crate::transform::lemma_regions_grow_exempt(ops1, ops2, ch, ch, b0.chain@);
        assert(rctx.wf());
        assert(!rctx.spec_done());
        assert(rctx.cur_ptr() == cur);
        assert(ops2[cur.idx as int].blocks == ops1[cur.idx as int].blocks) by {
            assert(cur.idx < ops1.len());
        }
    }
    let op_ref = rctx.get_mut();
    op_ref.blocks.insert(0, entry);
    proof {
        let ops3 = rctx.ctx.operations@;
        assert(ops3[cur.idx as int].blocks@ =~= ops2[cur.idx as int].blocks@.insert(0, b2));
        lemma_reattach_entry(ops1, ops2, ops3, ch, cur, b0, b2);
        assert(block_wf(rctx.block, ops3)) by {
            assert(rctx.block == old(rctx).block);
        }
        assert(rctx.wf());
        // the shape of the lowered definition
        assert(ops3[cur.idx as int].blocks@.len() == ops0[cur.idx as int].blocks@.len());
        assert forall|j: int|
            1 <= j < ops0[cur.idx as int].blocks@.len() implies ops3[cur.idx as int].blocks@[j]
            == ops0[cur.idx as int].blocks@[j] by {
            assert(ops3[cur.idx as int].blocks@[j] == ops2[cur.idx as int].blocks@[j - 1]);
            assert(ops1[cur.idx as int].blocks@[j - 1] == ops0[cur.idx as int].blocks@[j]);
        }
        assert(ops3[cur.idx as int].blocks@[0] == b2);
        // slots other than the cursor's and the old entry head's are
        // untouched, and every slot but the cursor's keeps its content
        assert(b0.head != Some(cur)) by {
            if b0.chain@.len() > 0 {
                assert(block_wf(b0, ops1));
                assert(b0.chain@.contains(b0.chain@[0]));
                assert(ch.contains(cur));
            }
        }
        assert forall|j: int|
            0 <= j < ops0.len() && j != cur.idx && b0.head != Some(
                Ptr { idx: j as usize },
            ) implies ops3[j] == ops0[j] by {
            assert(ops1[j] == ops0[j]);
            assert(ops2[j] == ops1[j]);
            assert(ops3[j] == ops2[j]);
        }
        assert forall|j: int|
            0 <= j < ops0.len() && j != cur.idx implies op_content_eq(ops3[j], ops0[j]) by {
            assert(ops1[j] == ops0[j]);
            assert(op_content_eq(ops2[j], ops1[j]));
            assert(ops3[j] == ops2[j]);
        }
        assert(ops2[cur.idx as int] == ops1[cur.idx as int]);
        assert(ops3[cur.idx as int].attributes == ops0[cur.idx as int].attributes);
        assert(ops3[cur.idx as int].behind == ops0[cur.idx as int].behind);
        assert(ops3[cur.idx as int].ahead == ops0[cur.idx as int].ahead);
        assert(b2.ops == b0.ops);
        assert forall|t: int|
            ops0.len() <= t < ops3.len() implies (#[trigger] ops3[t]).blocks@.len() == 0 by {
            assert(ops3[t] == ops2[t]);
        }
        assert(crate::transform::engine_frame(
            old(rctx).ctx,
            old(rctx).block,
            rctx.ctx,
            rctx.block,
        )) by {
            reveal(crate::transform::engine_frame);
            assert forall|j: int|
                0 <= j < ops0.len() implies (#[trigger] ops3[j]).blocks@.len()
                <= ops0[j].blocks@.len() by {
                if j != cur.idx {
                    assert(op_content_eq(ops3[j], ops0[j]));
                }
            }
            assert forall|j: int|
                0 <= j < ops0.len() && !ch.contains(Ptr { idx: j as usize })
                    && !crate::transform::slot_in_regions(ops0, Ptr { idx: j as usize }) implies (
            #[trigger] ops3[j]) == ops0[j] by {
                assert(ch.contains(cur));
                if b0.head == Some(Ptr { idx: j as usize }) {
                    assert(b0.chain@.contains(b0.chain@[0]));
                    assert(ops0[cur.idx as int].blocks@[0].chain@.contains(
                        Ptr { idx: j as usize },
                    ));
                    assert(crate::transform::slot_in_regions(ops0, Ptr { idx: j as usize }));
                }
            }
            assert forall|x: Ptr|
                crate::transform::slot_in_regions(ops3, x) implies
                crate::transform::slot_in_regions(ops0, x) || x.idx >= ops0.len() by {
                let (i, rr) = choose|i: int, rr: int|
                    0 <= i < ops3.len() && 0 <= rr < ops3[i].blocks@.len() && (
                    #[trigger] ops3[i].blocks@[rr]).chain@.contains(x);
                assert(ops3[i].blocks@[rr].chain@.contains(x));
                if i == cur.idx {
                    if rr == 0 {
                        assert(ops3[i].blocks@[0] == b2);
                        let w = choose|w: int|
                            0 <= w < b2.chain@.len() && b2.chain@[w] == x;
                        assert(b2.chain@[w] == x);
                        if w >= 4 {
                            assert(b2.chain@.skip(4)[w - 4] == x);
                            assert(b0.chain@.contains(x));
                            assert(ops0[cur.idx as int].blocks@[0].chain@.contains(x));
                            assert(crate::transform::slot_in_regions(ops0, x));
                        }
                    } else {
                        assert(ops3[i].blocks@[rr] == ops0[i].blocks@[rr]);
                        assert(ops0[i].blocks@[rr].chain@.contains(x));
                        assert(crate::transform::slot_in_regions(ops0, x));
                    }
                } else if i < ops0.len() {
                    assert(op_content_eq(ops3[i], ops0[i]));
                    assert(ops0[i].blocks@[rr].chain@.contains(x));
                    assert(crate::transform::slot_in_regions(ops0, x));
                } else {
                    assert(ops3[i].blocks@.len() == 0);
                }
            }
        }
        assert(prologue_shape(ops3, b2.chain@)) by {
            assert(prologue_shape(ops2, b2.chain@));
            assert(b2.chain@.len() >= 4);
            assert forall|t: int| 0 <= t < 4 implies ops3[(#[trigger] b2.chain@[t]).idx as int]
                == ops2[b2.chain@[t].idx as int] by {
                assert(b2.chain@.contains(b2.chain@[t]));
                assert(!ch.contains(b2.chain@[t])) by {
                    assert(crate::transform::regions_wf(ops3, ch));
                    assert(crate::transform::chains_disjoint(
                        ops3[cur.idx as int].blocks@[0].chain@,
                        ch,
                    ));
                }
                assert(b2.chain@[t].idx != cur.idx) by {
                    assert(ch.contains(cur));
                }
            }
        }
    }
}

/// Lowers `func.ret` into "read the return register, move the operand
/// into it, return".
pub struct LowerFunc;

impl RewriteRule for LowerFunc {
    open spec fn spec_triggers(&self, op: Operation) -> bool {
        func_trigger(op)
    }

    open spec fn spec_apply(&self, pre: RewritingCtx, post: RewritingCtx) -> bool {
        if pre.cur_op().name@ == "func.func"@ {
            func_def_lowered(pre, post)
        } else if pre.cur_op().name@ == "func.ret"@ && pre.cur_op().operands@.len() == 1 {
            ret_lowered(pre, post)
        } else {
            post == pre
        }
    }

    fn apply(&self, rctx: &mut RewritingCtx)
        ensures
            old(rctx).cur_op().name@ == "func.ret"@ && old(rctx).cur_op().operands@.len() == 1
                ==> ret_lowered(*old(rctx), *final(rctx)),
            old(rctx).cur_op().name@ == "func.func"@ ==> func_def_lowered(
                *old(rctx),
                *final(rctx),
            ),
    {
        proof {
            reveal_strlit("func.func");
            reveal_strlit("func.ret");
            assert("func.func"@.len() == 9);
            assert("func.ret"@.len() == 8);
            crate::transform::lemma_engine_frame_refl(rctx.ctx, rctx.block);
        }
        let is_func = str_eq(rctx.name(), "func.func");
        if is_func {
            lower_func_def(rctx);
            return ;
        }
        let is_ret = str_eq(rctx.name(), "func.ret");
        if is_ret {
            if rctx.operands().len() == 1 {
                lower_ret(rctx);
            }
        }
    }
}

/// Rewrites one `func.ret` under the cursor: splices a read of the return
/// register and a `mov` of the operand into it, then replaces the return
/// with the bare target `ret`.
#[verifier::rlimit(100)]
#[verifier::spinoff_prover]
fn lower_ret(rctx: &mut RewritingCtx)
    requires
        old(rctx).wf(),
        old(rctx).op.idx < old(rctx).block.ops@.len(),
        old(rctx).cur_op().name@ == "func.ret"@,
        old(rctx).cur_op().operands@.len() == 1,
    ensures
        final(rctx).wf(),
        final(rctx).op == old(rctx).op,
        final(rctx).block.ops == old(rctx).block.ops,
        final(rctx).block.id == old(rctx).block.id,
        ret_lowered(*old(rctx), *final(rctx)),
        crate::transform::engine_frame(
            old(rctx).ctx,
            old(rctx).block,
            final(rctx).ctx,
            final(rctx).block,
        ),
{
    let val = rctx.operands()[0];
    let ghost ch0 = rctx.block.chain@;
    let ghost cur = rctx.cur_ptr();
    let ghost k = chain_pos(ch0, cur);
    proof {
        lemma_chain_pos_unique(ch0, cur, k);
    }
    let ax_read = ax(rctx.values());
    let ghost u1 = *rctx;
    let ax_ptr = rctx.insert_behind(ax_read);
    proof {
        assert(crate::transform::engine_frame(old(rctx).ctx, old(rctx).block, u1.ctx, u1.block))
            by {
            reveal(crate::transform::engine_frame);
        }
        assert(rctx.block.chain@ =~= u1.block.chain@.insert(
            chain_pos(u1.block.chain@, u1.cur_ptr()),
            ax_ptr,
        ));
        u1.lemma_cur_in_range();
        crate::transform::lemma_frame_splice(
            u1.ctx,
            u1.block,
            rctx.ctx,
            rctx.block,
            u1.cur_ptr(),
            ax_ptr,
        );
        crate::transform::lemma_engine_frame_trans(
            old(rctx).ctx,
            old(rctx).block,
            u1.ctx,
            u1.block,
            rctx.ctx,
            rctx.block,
        );
        assert(rctx.block.chain@[k + 1] == cur);
        lemma_chain_pos_unique(rctx.block.chain@, cur, k + 1);
    }
    let ax_val = rctx.result_of(ax_ptr);
    let ghost u2 = *rctx;
    let ghost mov_ptr = Ptr { idx: u2.ctx.operations@.len() as usize };
    rctx.insert_behind(mov(val, ax_val));
    proof {
        assert(rctx.block.chain@ =~= u2.block.chain@.insert(
            chain_pos(u2.block.chain@, u2.cur_ptr()),
            mov_ptr,
        ));
        u2.lemma_cur_in_range();
        crate::transform::lemma_frame_splice(
            u2.ctx,
            u2.block,
            rctx.ctx,
            rctx.block,
            u2.cur_ptr(),
            mov_ptr,
        );
        crate::transform::lemma_engine_frame_trans(
            old(rctx).ctx,
            old(rctx).block,
            u2.ctx,
            u2.block,
            rctx.ctx,
            rctx.block,
        );
    }
    let ghost u3 = *rctx;
    rctx.replace(x86_ret());
    proof {
        u3.lemma_cur_in_range();
        crate::transform::lemma_frame_replace(u3.ctx, u3.block, rctx.ctx, u3.cur_ptr());
        crate::transform::lemma_engine_frame_trans(
            old(rctx).ctx,
            old(rctx).block,
            u3.ctx,
            u3.block,
            rctx.ctx,
            rctx.block,
        );
    }
}

} // verus!
