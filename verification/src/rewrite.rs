//! Pattern-matching rewrite rules and ordered rule sets.
//!
//! A rule inspects the operation under the cursor and either mutates the
//! sequence around it or leaves everything untouched; rules that do not
//! recognise the operation fall through, which makes passes partial by
//! design.

use vstd::prelude::*;

use crate::ir::Operation;
use crate::transform::{engine_frame, lemma_engine_frame_trans, RewritingCtx};

verus! {

/// One lowering rule.
///
/// `spec_triggers` names the operations the rule recognises; on any other
/// operation `apply` is a no-op, so a fully lowered sequence passes
/// through a second run unchanged. `spec_apply` is the rule's whole
/// behaviour as a relation on engine states, and `apply` must establish
/// it: a rule that rewrites promises the rewrite, not merely the absence
/// of damage.
///
/// Deviation, deliberate and load-bearing: the classical engine also
/// offers allocate-and-append to a rule, with appended operations visited
/// by the same walk. That looser contract admits rule sets whose passes
/// never terminate, so this library narrows it — the contract below pins
/// `block.ops`, the storage order the driver walks, and a rule rewrites
/// only by splicing before the cursor and replacing in place. The
/// narrowing is what bounds the walk and makes every pass terminate; the
/// clause `final(rctx).block.ops == old(rctx).block.ops` is its formal
/// record.
pub trait RewriteRule {
    /// Whether the rule recognises (and may rewrite) `op`.
    spec fn spec_triggers(&self, op: Operation) -> bool;

    /// The relation one application of the rule establishes between the
    /// engine state it was handed and the state it leaves.
    spec fn spec_apply(&self, pre: RewritingCtx, post: RewritingCtx) -> bool;

    /// Rewrites the sequence at the cursor, or does nothing.
    fn apply(&self, rctx: &mut RewritingCtx)
        requires
            old(rctx).wf(),
            old(rctx).op.idx < old(rctx).block.ops@.len(),
        ensures
            final(rctx).wf(),
            final(rctx).op == old(rctx).op,
            final(rctx).block.ops == old(rctx).block.ops,
            final(rctx).block.id == old(rctx).block.id,
            self.spec_apply(*old(rctx), *final(rctx)),
            engine_frame(old(rctx).ctx, old(rctx).block, final(rctx).ctx, final(rctx).block),
            !self.spec_triggers(old(rctx).cur_op()) ==> *final(rctx) == *old(rctx),
    ;
}

/// The engine states `tr` spell out trying each rule of `rules` once, in
/// order: one state per rule boundary, each adjacent pair related by the
/// matching rule's relation.
pub open spec fn rules_chain<R: RewriteRule>(rules: Seq<R>, tr: Seq<RewritingCtx>) -> bool {
    &&& tr.len() == rules.len() + 1
    &&& forall|i: int| 0 <= i < rules.len() ==> (#[trigger] rules[i]).spec_apply(tr[i], tr[i + 1])
}

/// An ordered collection of rules, tried in order at every cursor
/// position.
///
/// Rules of one set are meant to recognise disjoint operation names; the
/// set itself does not keep two rules from rewriting the same position.
pub struct RewriteRuleSet<R> {
    pub rules: Vec<R>,
}

impl<R: RewriteRule> RewriteRuleSet<R> {
    /// Whether any rule of the set recognises `op`.
    pub open spec fn spec_triggers(&self, op: Operation) -> bool {
        exists|i: int| 0 <= i < self.rules@.len() && (#[trigger] self.rules@[i]).spec_triggers(op)
    }

    /// Trying every rule of the set once, in order, turned `pre` into
    /// `post`: some chain of engine states starts at `pre`, ends at
    /// `post`, and each step is the matching rule's relation.
    pub open spec fn spec_applied(&self, pre: RewritingCtx, post: RewritingCtx) -> bool {
        exists|tr: Seq<RewritingCtx>|
            #[trigger] rules_chain(self.rules@, tr) && tr[0] == pre && tr[tr.len() - 1] == post
    }

    /// An empty rule set.
    pub fn new() -> (s: Self)
        ensures
            s.rules@ =~= Seq::<R>::empty(),
    {
        RewriteRuleSet { rules: Vec::new() }
    }

    /// Appends a rule, to be tried after the ones already present.
    pub fn add(&mut self, rule: R)
        ensures
            final(self).rules@ =~= old(self).rules@.push(rule),
    {
        self.rules.push(rule);
    }

    /// Tries every rule in order at the current cursor position.
    pub fn apply(&self, rctx: &mut RewritingCtx)
        requires
            old(rctx).wf(),
            old(rctx).op.idx < old(rctx).block.ops@.len(),
        ensures
            final(rctx).wf(),
            final(rctx).op == old(rctx).op,
            final(rctx).block.ops == old(rctx).block.ops,
            final(rctx).block.id == old(rctx).block.id,
            self.spec_applied(*old(rctx), *final(rctx)),
            engine_frame(old(rctx).ctx, old(rctx).block, final(rctx).ctx, final(rctx).block),
            !self.spec_triggers(old(rctx).cur_op()) ==> *final(rctx) == *old(rctx),
    {
        let n = self.rules.len();
        let mut i: usize = 0;
        proof {
            crate::transform::lemma_engine_frame_refl(rctx.ctx, rctx.block);
        }
        let ghost mut tr: Seq<RewritingCtx> = seq![*old(rctx)];
        while i < n
            invariant
                n == self.rules@.len(),
                i <= n,
                rctx.wf(),
                rctx.op == old(rctx).op,
                rctx.op.idx < rctx.block.ops@.len(),
                rctx.block.ops == old(rctx).block.ops,
                rctx.block.id == old(rctx).block.id,
                engine_frame(old(rctx).ctx, old(rctx).block, rctx.ctx, rctx.block),
                !self.spec_triggers(old(rctx).cur_op()) ==> *rctx == *old(rctx),
                tr.len() == i + 1,
                tr[0] == *old(rctx),
                tr[i as int] == *rctx,
                forall|j: int|
                    0 <= j < i ==> (#[trigger] self.rules@[j]).spec_apply(tr[j], tr[j + 1]),
            decreases n - i,
        {
            proof {
                assert(!self.spec_triggers(old(rctx).cur_op()) ==> !self.rules@[i as int].spec_triggers(
                    old(rctx).cur_op(),
                ));
            }
            let ghost pre = *rctx;
            self.rules[i].apply(rctx);
            proof {
                lemma_engine_frame_trans(
                    old(rctx).ctx,
                    old(rctx).block,
                    pre.ctx,
                    pre.block,
                    rctx.ctx,
                    rctx.block,
                );
                tr = tr.push(*rctx);
            }
            i += 1;
        }
        proof {
            assert(rules_chain(self.rules@, tr));
            assert(self.spec_applied(*old(rctx), *rctx));
        }
    }
}

} // verus!
