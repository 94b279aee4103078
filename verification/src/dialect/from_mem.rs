//! Lowering the memory dialect, and injecting the function epilogue in
//! front of already-lowered target returns.

use vstd::prelude::*;

use crate::ctx::Ptr;
use crate::ir::{op_content_eq, Operation, Value};
use crate::link::{chain_pos, lemma_chain_pos_unique};
use crate::rewrite::RewriteRule;
use crate::text::str_eq;
use crate::transform::RewritingCtx;

use super::x86::{mov, popq, rbp, rsp, subq};

verus! {

/// The operations the memory rule recognises: `mem.alloca` with its size
/// operand, and `x86.ret`, in front of which the epilogue belongs.
pub open spec fn mem_trigger(op: Operation) -> bool {
    ||| (op.name@ == "mem.alloca"@ && op.operands@.len() == 1)
    ||| op.name@ == "x86.ret"@
}

/// What lowering one `mem.alloca` does: a read of the stack pointer is
/// spliced immediately before the cursor, and the operation itself
/// becomes a `subq` that takes the requested size off that register,
/// aliasing it as the result.
pub open spec fn alloca_lowered(pre: RewritingCtx, post: RewritingCtx) -> bool {
    let cur = pre.cur_ptr();
    let k = chain_pos(pre.block.chain@, cur);
    let p_rsp = Ptr { idx: pre.ctx.operations@.len() as usize };
    let size = pre.cur_op().operands@[0];
    let reg_read = post.ctx.operations@[p_rsp.idx as int];
    let target = post.ctx.operations@[cur.idx as int];
    &&& post.ctx.operations@.len() == pre.ctx.operations@.len() + 1
    &&& post.block.chain@ =~= pre.block.chain@.insert(k, p_rsp)
    &&& reg_read.name@ == "x86.rsp"@
    &&& reg_read.operands@.len() == 0
    &&& reg_read.result matches Some(a) && a.id == pre.ctx.values.next
    &&& target.name@ == "x86.subq"@
    &&& target.operands@ =~= seq![size, reg_read.result->Some_0]
    &&& target.result == reg_read.result
    &&& post.block.ops == pre.block.ops
    &&& post.block.id == pre.block.id
    &&& post.op == pre.op
    &&& forall|j: int|
        0 <= j < pre.ctx.operations@.len() && j != cur.idx && pre.cur_op().behind != Some(
            Ptr { idx: j as usize },
        ) ==> post.ctx.operations@[j] == pre.ctx.operations@[j]
    &&& forall|j: int|
        0 <= j < pre.ctx.operations@.len() && j != cur.idx ==> op_content_eq(
            #[trigger] post.ctx.operations@[j],
            pre.ctx.operations@[j],
        )
}

/// What framing one target `ret` does: reads of the frame and stack
/// pointers, a `mov` of the frame pointer back into the stack pointer,
/// and a `popq` of the saved frame pointer are spliced immediately before
/// the cursor, in that order; the `ret` itself stays.
pub open spec fn epilogue_framed(pre: RewritingCtx, post: RewritingCtx) -> bool {
    let cur = pre.cur_ptr();
    let k = chain_pos(pre.block.chain@, cur);
    let n = pre.ctx.operations@.len() as int;
    let p_rbp = Ptr { idx: n as usize };
    let p_rsp = Ptr { idx: (n + 1) as usize };
    let p_mov = Ptr { idx: (n + 2) as usize };
    let p_pop = Ptr { idx: (n + 3) as usize };
    let frame_read = post.ctx.operations@[n];
    let stack_read = post.ctx.operations@[n + 1];
    let moved = post.ctx.operations@[n + 2];
    let popped = post.ctx.operations@[n + 3];
    &&& post.ctx.operations@.len() == pre.ctx.operations@.len() + 4
    &&& post.block.chain@ =~= pre.block.chain@.insert(k, p_rbp).insert(k + 1, p_rsp).insert(
        k + 2,
        p_mov,
    ).insert(k + 3, p_pop)
    &&& frame_read.name@ == "x86.rbp"@
    &&& frame_read.result is Some
    &&& stack_read.name@ == "x86.rsp"@
    &&& stack_read.result is Some
    &&& moved.name@ == "x86.mov"@
    &&& moved.operands@ =~= seq![
        frame_read.result->Some_0,
        stack_read.result->Some_0,
    ]
    &&& popped.name@ == "x86.popq"@
    &&& popped.operands@ =~= seq![frame_read.result->Some_0]
    &&& post.ctx.operations@[cur.idx as int].name@ == pre.cur_op().name@
    &&& post.ctx.operations@[cur.idx as int].operands@ == pre.cur_op().operands@
    &&& post.ctx.operations@[cur.idx as int].result == pre.cur_op().result
    &&& post.block.ops == pre.block.ops
    &&& post.block.id == pre.block.id
    &&& post.op == pre.op
    &&& forall|j: int|
        0 <= j < pre.ctx.operations@.len() && j != cur.idx && pre.cur_op().behind != Some(
            Ptr { idx: j as usize },
        ) ==> post.ctx.operations@[j] == pre.ctx.operations@[j]
    &&& forall|j: int|
        0 <= j < pre.ctx.operations@.len() && j != cur.idx ==> op_content_eq(
            #[trigger] post.ctx.operations@[j],
            pre.ctx.operations@[j],
        )
}

/// Lowers `mem.alloca` to a stack-pointer decrement, and injects the
/// matching epilogue before a target `ret`.
pub struct LowerMem;

impl RewriteRule for LowerMem {
    open spec fn spec_triggers(&self, op: Operation) -> bool {
        mem_trigger(op)
    }

    open spec fn spec_apply(&self, pre: RewritingCtx, post: RewritingCtx) -> bool {
        if pre.cur_op().name@ == "mem.alloca"@ && pre.cur_op().operands@.len() == 1 {
            alloca_lowered(pre, post)
        } else if pre.cur_op().name@ == "x86.ret"@ {
            epilogue_framed(pre, post)
        } else {
            post == pre
        }
    }

    fn apply(&self, rctx: &mut RewritingCtx)
        ensures
            old(rctx).cur_op().name@ == "mem.alloca"@ && old(rctx).cur_op().operands@.len() == 1
                ==> alloca_lowered(*old(rctx), *final(rctx)),
            old(rctx).cur_op().name@ == "x86.ret"@ ==> epilogue_framed(*old(rctx), *final(rctx)),
    {
        proof {
            reveal_strlit("mem.alloca");
            reveal_strlit("x86.ret");
            assert("mem.alloca"@.len() == 10);
            assert("x86.ret"@.len() == 7);
        }
        proof {
            crate::transform::lemma_engine_frame_refl(rctx.ctx, rctx.block);
        }
        let is_alloca = str_eq(rctx.name(), "mem.alloca");
        let is_ret = str_eq(rctx.name(), "x86.ret");
        if is_alloca {
            if rctx.operands().len() == 1 {
                lower_alloca(rctx);
            }
        } else if is_ret {
            frame_epilogue(rctx);
        }
    }
}

/// Rewrites one `mem.alloca` under the cursor into a stack-pointer read
/// and a `subq`.
#[verifier::rlimit(100)]
#[verifier::spinoff_prover]
fn lower_alloca(rctx: &mut RewritingCtx)
    requires
        old(rctx).wf(),
        old(rctx).op.idx < old(rctx).block.ops@.len(),
        old(rctx).cur_op().name@ == "mem.alloca"@,
        old(rctx).cur_op().operands@.len() == 1,
    ensures
        final(rctx).wf(),
        final(rctx).op == old(rctx).op,
        final(rctx).block.ops == old(rctx).block.ops,
        final(rctx).block.id == old(rctx).block.id,
        alloca_lowered(*old(rctx), *final(rctx)),
        crate::transform::engine_frame(
            old(rctx).ctx,
            old(rctx).block,
            final(rctx).ctx,
            final(rctx).block,
        ),
{
    let size = rctx.operands()[0];
    let ghost s0 = *rctx;
    proof {
        old(rctx).lemma_cur_in_range();
    }
    let reg_read = rsp(rctx.values());
    let ghost s0v = *rctx;
    let reg_ptr = rctx.insert_behind(reg_read);
    proof {
        assert(rctx.block.chain@ =~= s0v.block.chain@.insert(
            chain_pos(s0v.block.chain@, s0v.cur_ptr()),
            reg_ptr,
        ));
        crate::transform::lemma_frame_splice(
            s0v.ctx,
            s0v.block,
            rctx.ctx,
            rctx.block,
            s0v.cur_ptr(),
            reg_ptr,
        );
        assert(crate::transform::engine_frame(s0.ctx, s0.block, s0v.ctx, s0v.block)) by {
            reveal(crate::transform::engine_frame);
        }
        crate::transform::lemma_engine_frame_trans(
            s0.ctx,
            s0.block,
            s0v.ctx,
            s0v.block,
            rctx.ctx,
            rctx.block,
        );
    }
    let ghost s1 = *rctx;
    let reg = rctx.result_of(reg_ptr);
    rctx.replace(subq(size, reg));
    proof {
        s1.lemma_cur_in_range();
        crate::transform::lemma_frame_replace(s1.ctx, s1.block, rctx.ctx, s1.cur_ptr());
        crate::transform::lemma_engine_frame_trans(
            s0.ctx,
            s0.block,
            s1.ctx,
            s1.block,
            rctx.ctx,
            rctx.block,
        );
    }
}

/// Splices the two pointer-register reads immediately before the cursor,
/// in order: the first half of the epilogue.
#[verifier::rlimit(100)]
#[verifier::spinoff_prover]
fn epilogue_reads(rctx: &mut RewritingCtx) -> (ps: (Ptr, Ptr))
    requires
        old(rctx).wf(),
        old(rctx).op.idx < old(rctx).block.ops@.len(),
    ensures
        final(rctx).wf(),
        final(rctx).op == old(rctx).op,
        final(rctx).block.ops == old(rctx).block.ops,
        final(rctx).block.id == old(rctx).block.id,
        ({
            let cur = old(rctx).cur_ptr();
            let k = chain_pos(old(rctx).block.chain@, cur);
            let n = old(rctx).ctx.operations@.len() as int;
            let frame_read = final(rctx).ctx.operations@[n];
            let stack_read = final(rctx).ctx.operations@[n + 1];
            &&& ps.0.idx == n
            &&& ps.1.idx == n + 1
            &&& final(rctx).ctx.operations@.len() == n + 2
            &&& final(rctx).block.chain@ =~= old(rctx).block.chain@.insert(k, ps.0).insert(
                k + 1,
                ps.1,
            )
            &&& chain_pos(final(rctx).block.chain@, cur) == k + 2
            &&& frame_read.name@ == "x86.rbp"@
            &&& frame_read.result is Some
            &&& stack_read.name@ == "x86.rsp"@
            &&& stack_read.result is Some
            &&& forall|j: int|
                0 <= j < n && j != cur.idx && old(rctx).cur_op().behind != Some(
                    Ptr { idx: j as usize },
                ) ==> final(rctx).ctx.operations@[j] == old(rctx).ctx.operations@[j]
            &&& forall|j: int|
                0 <= j < n ==> op_content_eq(
                    #[trigger] final(rctx).ctx.operations@[j],
                    old(rctx).ctx.operations@[j],
                )
        }),
        crate::transform::engine_frame(
            old(rctx).ctx,
            old(rctx).block,
            final(rctx).ctx,
            final(rctx).block,
        ),
{
    let ghost ops0 = rctx.ctx.operations@;
    let ghost ch0 = rctx.block.chain@;
    let ghost cur = rctx.cur_ptr();
    let ghost k = chain_pos(ch0, cur);
    proof {
        lemma_chain_pos_unique(ch0, cur, k);
    }
    let rbp_read = rbp(rctx.values());
    let ghost u1 = *rctx;
    let rbp_ptr = rctx.insert_behind(rbp_read);
    proof {
        assert(crate::transform::engine_frame(old(rctx).ctx, old(rctx).block, u1.ctx, u1.block))
            by {
            reveal(crate::transform::engine_frame);
        }
        assert(rctx.block.chain@ =~= u1.block.chain@.insert(
            chain_pos(u1.block.chain@, u1.cur_ptr()),
            rbp_ptr,
        ));
        u1.lemma_cur_in_range();
        crate::transform::lemma_frame_splice(
            u1.ctx,
            u1.block,
            rctx.ctx,
            rctx.block,
            u1.cur_ptr(),
            rbp_ptr,
        );
        crate::transform::lemma_engine_frame_trans(
            old(rctx).ctx,
            old(rctx).block,
            u1.ctx,
            u1.block,
            rctx.ctx,
            rctx.block,
        );
        assert(rctx.block.chain@[k + 1] == cur);
        lemma_chain_pos_unique(rctx.block.chain@, cur, k + 1);
    }
    let rsp_read = rsp(rctx.values());
    let ghost u2 = *rctx;
    let rsp_ptr = rctx.insert_behind(rsp_read);
    proof {
        assert(crate::transform::engine_frame(old(rctx).ctx, old(rctx).block, u2.ctx, u2.block))
            by {
            reveal(crate::transform::engine_frame);
        }
        assert(rctx.block.chain@ =~= u2.block.chain@.insert(
            chain_pos(u2.block.chain@, u2.cur_ptr()),
            rsp_ptr,
        ));
        u2.lemma_cur_in_range();
        crate::transform::lemma_frame_splice(
            u2.ctx,
            u2.block,
            rctx.ctx,
            rctx.block,
            u2.cur_ptr(),
            rsp_ptr,
        );
        crate::transform::lemma_engine_frame_trans(
            old(rctx).ctx,
            old(rctx).block,
            u2.ctx,
            u2.block,
            rctx.ctx,
            rctx.block,
        );
        assert(rctx.block.chain@[k + 2] == cur);
        lemma_chain_pos_unique(rctx.block.chain@, cur, k + 2);
        assert(rctx.block.chain@ =~= ch0.insert(k, rbp_ptr).insert(k + 1, rsp_ptr));
    }
    (rbp_ptr, rsp_ptr)
}

/// Splices a `mov` of `a` into `b` and a `popq` of `a` immediately
/// before the cursor, in order: the second half of the epilogue.
#[verifier::rlimit(100)]
#[verifier::spinoff_prover]
fn epilogue_tail(rctx: &mut RewritingCtx, a: Value, b: Value)
    requires
        old(rctx).wf(),
        old(rctx).op.idx < old(rctx).block.ops@.len(),
    ensures
        final(rctx).wf(),
        final(rctx).op == old(rctx).op,
        final(rctx).block.ops == old(rctx).block.ops,
        final(rctx).block.id == old(rctx).block.id,
        ({
            let cur = old(rctx).cur_ptr();
            let k = chain_pos(old(rctx).block.chain@, cur);
            let n = old(rctx).ctx.operations@.len() as int;
            let moved = final(rctx).ctx.operations@[n];
            let popped = final(rctx).ctx.operations@[n + 1];
            &&& final(rctx).ctx.operations@.len() == n + 2
            &&& final(rctx).block.chain@ =~= old(rctx).block.chain@.insert(
                k,
                Ptr { idx: n as usize },
            ).insert(k + 1, Ptr { idx: (n + 1) as usize })
            &&& moved.name@ == "x86.mov"@
            &&& moved.operands@ =~= seq![a, b]
            &&& popped.name@ == "x86.popq"@
            &&& popped.operands@ =~= seq![a]
            &&& final(rctx).ctx.operations@[cur.idx as int].name@ == old(rctx).cur_op().name@
            &&& final(rctx).ctx.operations@[cur.idx as int].operands@ == old(
                rctx,
            ).cur_op().operands@
            &&& final(rctx).ctx.operations@[cur.idx as int].result == old(rctx).cur_op().result
            &&& forall|j: int|
                0 <= j < n && j != cur.idx && old(rctx).cur_op().behind != Some(
                    Ptr { idx: j as usize },
                ) ==> final(rctx).ctx.operations@[j] == old(rctx).ctx.operations@[j]
            &&& forall|j: int|
                0 <= j < n && j != cur.idx ==> op_content_eq(
                    #[trigger] final(rctx).ctx.operations@[j],
                    old(rctx).ctx.operations@[j],
                )
        }),
        crate::transform::engine_frame(
            old(rctx).ctx,
            old(rctx).block,
            final(rctx).ctx,
            final(rctx).block,
        ),
{
    let ghost ops0 = rctx.ctx.operations@;
    let ghost bhd = rctx.cur_op().behind;
    let ghost ch0 = rctx.block.chain@;
    let ghost cur = rctx.cur_ptr();
    let ghost k = chain_pos(ch0, cur);
    proof {
        lemma_chain_pos_unique(ch0, cur, k);
    }
    let ghost mov_ptr = Ptr { idx: ops0.len() as usize };
    rctx.insert_behind(mov(a, b));
    proof {
        assert(rctx.block.chain@ =~= ch0.insert(k, mov_ptr));
        old(rctx).lemma_cur_in_range();
        crate::transform::lemma_frame_splice(
            old(rctx).ctx,
            old(rctx).block,
            rctx.ctx,
            rctx.block,
            cur,
            mov_ptr,
        );
        assert(rctx.block.chain@[k + 1] == cur);
        lemma_chain_pos_unique(rctx.block.chain@, cur, k + 1);
    }
    let ghost u = *rctx;
    let ghost pop_ptr = Ptr { idx: u.ctx.operations@.len() as usize };
    rctx.insert_behind(popq(a));
    proof {
        assert(rctx.block.chain@ =~= u.block.chain@.insert(
            chain_pos(u.block.chain@, u.cur_ptr()),
            pop_ptr,
        ));
        u.lemma_cur_in_range();
        crate::transform::lemma_frame_splice(
            u.ctx,
            u.block,
            rctx.ctx,
            rctx.block,
            u.cur_ptr(),
            pop_ptr,
        );
        crate::transform::lemma_engine_frame_trans(
            old(rctx).ctx,
            old(rctx).block,
            u.ctx,
            u.block,
            rctx.ctx,
            rctx.block,
        );
        assert(rctx.block.chain@ =~= ch0.insert(k, mov_ptr).insert(k + 1, pop_ptr));
        assert forall|j: int|
            0 <= j < ops0.len() && j != cur.idx && bhd != Some(
                Ptr { idx: j as usize },
            ) implies rctx.ctx.operations@[j] == ops0[j] by {
            assert(u.ctx.operations@[j] == ops0[j]);
            assert(rctx.ctx.operations@[j] == u.ctx.operations@[j]);
        }
        assert forall|j: int|
            0 <= j < ops0.len() && j != cur.idx implies op_content_eq(
            rctx.ctx.operations@[j],
            ops0[j],
        ) by {
            assert(op_content_eq(u.ctx.operations@[j], ops0[j]));
            assert(op_content_eq(rctx.ctx.operations@[j], u.ctx.operations@[j]));
        }
    }
}

/// Splices the epilogue immediately before the target `ret` under the
/// cursor: read both pointer registers, move the frame pointer back into
/// the stack pointer, pop the saved frame pointer.
#[verifier::rlimit(100)]
#[verifier::spinoff_prover]
fn frame_epilogue(rctx: &mut RewritingCtx)
    requires
        old(rctx).wf(),
        old(rctx).op.idx < old(rctx).block.ops@.len(),
        old(rctx).cur_op().name@ == "x86.ret"@,
    ensures
        final(rctx).wf(),
        final(rctx).op == old(rctx).op,
        final(rctx).block.ops == old(rctx).block.ops,
        final(rctx).block.id == old(rctx).block.id,
        epilogue_framed(*old(rctx), *final(rctx)),
        crate::transform::engine_frame(
            old(rctx).ctx,
            old(rctx).block,
            final(rctx).ctx,
            final(rctx).block,
        ),
{
    let ghost ops0 = rctx.ctx.operations@;
    let ghost bhd = rctx.cur_op().behind;
    let ghost ch0 = rctx.block.chain@;
    let ghost cur = rctx.cur_ptr();
    let ghost k = chain_pos(ch0, cur);
    let (rbp_ptr, rsp_ptr) = epilogue_reads(rctx);
    let ghost mid = *rctx;
    let rbp_val = rctx.result_of(rbp_ptr);
    let rsp_val = rctx.result_of(rsp_ptr);
    epilogue_tail(rctx, rbp_val, rsp_val);
    proof {
        crate::transform::lemma_engine_frame_trans(
            old(rctx).ctx,
            old(rctx).block,
            mid.ctx,
            mid.block,
            rctx.ctx,
            rctx.block,
        );
        assert(mid.cur_ptr() == cur);
        assert(chain_pos(mid.block.chain@, cur) == k + 2);
        assert(rctx.block.chain@ =~= ch0.insert(k, rbp_ptr).insert(k + 1, rsp_ptr).insert(
            k + 2,
            Ptr { idx: (ops0.len() + 2) as usize },
        ).insert(k + 3, Ptr { idx: (ops0.len() + 3) as usize }));
        assert(rsp_ptr.idx != cur.idx && rbp_ptr.idx != cur.idx) by {
            assert(ch0.contains(cur));
            let w = choose|w: int| 0 <= w < ch0.len() && ch0[w] == cur;
            assert(ch0[w] == cur);
        }
        // the two register reads keep their shape through the tail splices
        assert(op_content_eq(rctx.ctx.operations@[rbp_ptr.idx as int], mid.ctx.operations@[rbp_ptr.idx as int]));
        assert(op_content_eq(rctx.ctx.operations@[rsp_ptr.idx as int], mid.ctx.operations@[rsp_ptr.idx as int]));
        // the return keeps its shape end to end
        assert(op_content_eq(mid.ctx.operations@[cur.idx as int], ops0[cur.idx as int]));
        assert forall|j: int|
            0 <= j < ops0.len() && j != cur.idx && bhd != Some(
                Ptr { idx: j as usize },
            ) implies rctx.ctx.operations@[j] == ops0[j] by {
            assert(mid.ctx.operations@[j] == ops0[j]);
            assert(mid.cur_op().behind == Some(rbp_ptr) || mid.cur_op().behind == Some(rsp_ptr)
                || mid.cur_op().behind == bhd);
            assert(rctx.ctx.operations@[j] == mid.ctx.operations@[j]);
        }
        assert forall|j: int|
            0 <= j < ops0.len() && j != cur.idx implies op_content_eq(
            rctx.ctx.operations@[j],
            ops0[j],
        ) by {
            assert(op_content_eq(mid.ctx.operations@[j], ops0[j]));
            assert(op_content_eq(rctx.ctx.operations@[j], mid.ctx.operations@[j]));
        }
    }
}

} // verus!
