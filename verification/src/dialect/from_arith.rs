//! Lowering the unary arithmetic dialect into the target dialect.

use vstd::prelude::*;

use crate::ctx::Ptr;
use crate::ir::{op_content_eq, Operation};
use crate::link::chain_pos;
use crate::rewrite::RewriteRule;
use crate::text::str_eq;
use crate::transform::RewritingCtx;

use super::x86::{mov, neg, not};

verus! {

/// The operations the unary-arithmetic rule recognises: one operand, a
/// result, and an `arith.negate` or `arith.complement` name.
pub open spec fn unary_trigger(op: Operation) -> bool {
    &&& op.operands@.len() == 1
    &&& op.result is Some
    &&& (op.name@ == "arith.negate"@ || op.name@ == "arith.complement"@)
}

/// What lowering one unary operation does: a `mov` from the operand into
/// the result's storage is spliced immediately before the cursor, and the
/// operation itself becomes the matching in-place target instruction on
/// that same storage. Every other stored operation keeps its content, and
/// all but the cursor's predecessor — whose forward link now names the
/// spliced `mov` — stay untouched entirely.
pub open spec fn unary_lowered(pre: RewritingCtx, post: RewritingCtx) -> bool {
    let cur = pre.cur_ptr();
    let k = chain_pos(pre.block.chain@, cur);
    let p = Ptr { idx: pre.ctx.operations@.len() as usize };
    let src = pre.cur_op().operands@[0];
    let dst = pre.cur_op().result->Some_0;
    let moved = post.ctx.operations@[p.idx as int];
    let target = post.ctx.operations@[cur.idx as int];
    &&& post.ctx.operations@.len() == pre.ctx.operations@.len() + 1
    &&& post.block.chain@ =~= pre.block.chain@.insert(k, p)
    &&& moved.name@ == "x86.mov"@
    &&& moved.operands@ =~= seq![src, dst]
    &&& moved.result == Some(dst)
    &&& target.name@ == (if pre.cur_op().name@ == "arith.negate"@ {
        "x86.neg"@
    } else {
        "x86.not"@
    })
    &&& target.operands@ =~= seq![dst]
    &&& target.result == Some(dst)
    &&& post.block.ops == pre.block.ops
    &&& post.block.id == pre.block.id
    &&& post.op == pre.op
    &&& forall|j: int|
        0 <= j < pre.ctx.operations@.len() && j != cur.idx && pre.cur_op().behind != Some(
            Ptr { idx: j as usize },
        ) ==> post.ctx.operations@[j] == pre.ctx.operations@[j]
    &&& forall|j: int|
        0 <= j < pre.ctx.operations@.len() && j != cur.idx ==> op_content_eq(
            #[trigger] post.ctx.operations@[j],
            pre.ctx.operations@[j],
        )
}

/// Lowers `arith.negate` and `arith.complement` to `x86.neg` and
/// `x86.not` over an explicit `mov`.
pub struct LowerBinop;

impl RewriteRule for LowerBinop {
    open spec fn spec_triggers(&self, op: Operation) -> bool {
        unary_trigger(op)
    }

    open spec fn spec_apply(&self, pre: RewritingCtx, post: RewritingCtx) -> bool {
        if unary_trigger(pre.cur_op()) {
            unary_lowered(pre, post)
        } else {
            post == pre
        }
    }

    fn apply(&self, rctx: &mut RewritingCtx)
        ensures
            unary_trigger(old(rctx).cur_op()) ==> unary_lowered(*old(rctx), *final(rctx)),
    {
        proof {
            crate::transform::lemma_engine_frame_refl(rctx.ctx, rctx.block);
        }
        let name = rctx.name();
        let is_neg = str_eq(name, "arith.negate");
        let is_not = str_eq(name, "arith.complement");
        if !is_neg && !is_not {
            return ;
        }
        if rctx.operands().len() != 1 {
            return ;
        }
        let result = rctx.result();
        match result {
            Some(dst) => {
                let src = rctx.operands()[0];
                let ghost s0 = *rctx;
                proof {
                    old(rctx).lemma_cur_in_range();
                }
                let ptr = rctx.insert_behind(mov(src, dst));
                proof {
                    assert(rctx.block.chain@ =~= s0.block.chain@.insert(
                        crate::link::chain_pos(s0.block.chain@, s0.cur_ptr()),
                        ptr,
                    ));
                    crate::transform::lemma_frame_splice(
                        s0.ctx,
                        s0.block,
                        rctx.ctx,
                        rctx.block,
                        s0.cur_ptr(),
                        ptr,
                    );
                }
                let ghost s1 = *rctx;
                let moved = rctx.result_of(ptr);
                if is_neg {
                    rctx.replace(neg(moved));
                } else {
                    rctx.replace(not(moved));
                }
                proof {
                    s1.lemma_cur_in_range();
                    crate::transform::lemma_frame_replace(s1.ctx, s1.block, rctx.ctx, s1.cur_ptr());
                    crate::transform::lemma_engine_frame_trans(
                        s0.ctx,
                        s0.block,
                        s1.ctx,
                        s1.block,
                        rctx.ctx,
                        rctx.block,
                    );
                }
            },
            None => {
                return ;
            },
        }
    }
}

} // verus!
