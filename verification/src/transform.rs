//! The rewrite engine: a cursor over one sequence, the mutations a rule
//! may perform there, and the driver that applies a rule set at every
//! cursor position.
//!
//! The cursor advances by storage index over [`crate::ir::Block::ops`],
//! not by following the intrusive links, so operations spliced before the
//! cursor are not revisited. A rule's contract pins the storage order it
//! walks: during a pass a rule may splice before the cursor and replace
//! in place, but never grow the sequence — that restriction is what
//! bounds the walk and makes every pass terminate.
//!
//! [`rewrite_ops`] drives a pass over one sequence; [`rewrite_tree`]
//! drives it over the whole region tree, every region of every stored
//! operation visited transitively, depth first.

use vstd::prelude::*;

use crate::ctx::{Ctx, OperationId, Ptr};
use crate::ir::{Block, Counter, Operation, OpResult, Value};
use crate::link::{block_wf, chain_pos};
use crate::rewrite::{RewriteRule, RewriteRuleSet};

verus! {

/// `r` with its definition reference filled in as `p`, if it carries a
/// value that has none yet.
pub open spec fn fill_def(r: OpResult, p: Ptr) -> OpResult {
    match r {
        Some(v) => Some(
            Value {
                def: if v.def is None {
                    Some(p)
                } else {
                    v.def
                },
                ..v
            },
        ),
        None => None,
    }
}

/// No handle of `a` occurs in `b`.
pub open spec fn chains_disjoint(a: Seq<Ptr>, b: Seq<Ptr>) -> bool {
    forall|x: Ptr| a.contains(x) ==> !b.contains(x)
}

/// How many nested regions hang off the first `n` stored operations.
pub open spec fn region_count_to(ops: Seq<Operation>, n: int) -> nat
    decreases n,
{
    if n <= 0 {
        0
    } else {
        region_count_to(ops, n - 1) + ops[n - 1].blocks@.len()
    }
}

/// How many nested regions the store holds in all; the measure that
/// bounds a walk of the region tree.
pub open spec fn region_count(ops: Seq<Operation>) -> nat {
    region_count_to(ops, ops.len() as int)
}

/// Whether slot `x` sits in some region of some stored operation.
pub open spec fn slot_in_regions(ops: Seq<Operation>, x: Ptr) -> bool {
    exists|i: int, r: int|
        0 <= i < ops.len() && 0 <= r < ops[i].blocks@.len() && (#[trigger] ops[i].blocks@[r]).chain@.contains(x)
}

/// The prefix count only compares the slots it covers.
pub proof fn lemma_region_count_to_le(ops0: Seq<Operation>, ops1: Seq<Operation>, n: int)
    requires
        n <= ops0.len(),
        n <= ops1.len(),
        forall|j: int|
            0 <= j < n ==> (#[trigger] ops1[j]).blocks@.len() <= ops0[j].blocks@.len(),
    ensures
        region_count_to(ops1, n) <= region_count_to(ops0, n),
    decreases n,
{
    if n > 0 {
        lemma_region_count_to_le(ops0, ops1, n - 1);
    }
}

/// Slots without regions past `n` add nothing to the total count.
pub proof fn lemma_region_count_to_tail(ops: Seq<Operation>, n: int)
    requires
        0 <= n <= ops.len(),
        forall|j: int| n <= j < ops.len() ==> (#[trigger] ops[j]).blocks@.len() == 0,
    ensures
        region_count(ops) == region_count_to(ops, n),
    decreases ops.len() - n,
{
    if n < ops.len() {
        lemma_region_count_to_tail(ops, n + 1);
    }
}

/// The store's region count never grows under a mutation that keeps every
/// old slot's region count bounded and appends only region-free slots.
pub proof fn lemma_region_count_grow(ops0: Seq<Operation>, ops1: Seq<Operation>)
    requires
        ops0.len() <= ops1.len(),
        forall|j: int|
            0 <= j < ops0.len() ==> (#[trigger] ops1[j]).blocks@.len() <= ops0[j].blocks@.len(),
        forall|j: int|
            ops0.len() <= j < ops1.len() ==> (#[trigger] ops1[j]).blocks@.len() == 0,
    ensures
        region_count(ops1) <= region_count(ops0),
{
    lemma_region_count_to_tail(ops1, ops0.len() as int);
    lemma_region_count_to_le(ops0, ops1, ops0.len() as int);
}

/// Taking one region off one slot takes at least one region off the
/// total count.
pub proof fn lemma_region_count_to_detach(ops0: Seq<Operation>, ops1: Seq<Operation>, z: int, n: int)
    requires
        ops0.len() == ops1.len(),
        0 <= z < ops0.len(),
        0 <= n <= ops0.len(),
        ops1[z].blocks@.len() + 1 == ops0[z].blocks@.len(),
        forall|j: int|
            0 <= j < ops0.len() && j != z ==> (#[trigger] ops1[j]).blocks@.len()
                <= ops0[j].blocks@.len(),
    ensures
        z < n ==> region_count_to(ops1, n) + 1 <= region_count_to(ops0, n),
        z >= n ==> region_count_to(ops1, n) <= region_count_to(ops0, n),
    decreases n,
{
    if n > 0 {
        lemma_region_count_to_detach(ops0, ops1, z, n - 1);
    }
}

/// The store discipline that every rule application keeps: the store only
/// grows, fresh slots carry no regions, no old slot gains a region,
/// region membership and the walked order grow only by fresh slots,
/// slots that sit neither in the walked order nor in any stored region
/// are untouched, and the context's block table does not move.
#[verifier::opaque]
pub open spec fn engine_frame(c0: Ctx, b0: Block, c1: Ctx, b1: Block) -> bool {
    &&& c1.operations@.len() >= c0.operations@.len()
    &&& c1.blocks == c0.blocks
    &&& forall|j: int|
        0 <= j < c0.operations@.len() ==> (#[trigger] c1.operations@[j]).blocks@.len()
            <= c0.operations@[j].blocks@.len()
    &&& forall|j: int|
        c0.operations@.len() <= j < c1.operations@.len() ==> (
        #[trigger] c1.operations@[j]).blocks@.len() == 0
    &&& forall|j: int|
        0 <= j < c0.operations@.len() && !b0.chain@.contains(Ptr { idx: j as usize })
            && !slot_in_regions(c0.operations@, Ptr { idx: j as usize }) ==> (
        #[trigger] c1.operations@[j]) == c0.operations@[j]
    &&& forall|x: Ptr|
        slot_in_regions(c1.operations@, x) ==> slot_in_regions(c0.operations@, x) || x.idx
            >= c0.operations@.len()
    &&& forall|x: Ptr|
        b1.chain@.contains(x) ==> b0.chain@.contains(x) || x.idx >= c0.operations@.len()
}

/// The store discipline holds of an unchanged state.
pub proof fn lemma_engine_frame_refl(c: Ctx, b: Block)
    ensures
        engine_frame(c, b, c, b),
{
    reveal(engine_frame);}

/// The store discipline composes along consecutive engine states.
pub proof fn lemma_engine_frame_trans(c0: Ctx, b0: Block, c1: Ctx, b1: Block, c2: Ctx, b2: Block)
    requires
        engine_frame(c0, b0, c1, b1),
        engine_frame(c1, b1, c2, b2),
    ensures
        engine_frame(c0, b0, c2, b2),
{
    reveal(engine_frame);    assert forall|j: int|
        0 <= j < c0.operations@.len() && !b0.chain@.contains(Ptr { idx: j as usize })
            && !slot_in_regions(c0.operations@, Ptr { idx: j as usize }) implies (
    #[trigger] c2.operations@[j]) == c0.operations@[j] by {
        let p = Ptr { idx: j as usize };
        assert(c1.operations@[j] == c0.operations@[j]);
        assert(!b1.chain@.contains(p));
        assert(!slot_in_regions(c1.operations@, p));
        assert(c2.operations@[j] == c1.operations@[j]);
    }
    assert forall|x: Ptr|
        slot_in_regions(c2.operations@, x) implies slot_in_regions(c0.operations@, x) || x.idx
        >= c0.operations@.len() by {}
    assert forall|x: Ptr|
        b2.chain@.contains(x) implies b0.chain@.contains(x) || x.idx
        >= c0.operations@.len() by {}
}

/// Every region nested in any stored operation is itself a well formed
/// sequence over the store, and no two of these sequences — nor a region
/// and the outer order `outer` — share an operation slot.
pub open spec fn regions_wf(ops: Seq<Operation>, outer: Seq<Ptr>) -> bool {
    &&& forall|i: int, j: int|
        0 <= i < ops.len() && 0 <= j < ops[i].blocks@.len() ==> block_wf(
            #[trigger] ops[i].blocks@[j],
            ops,
        )
    &&& forall|i: int, j: int|
        0 <= i < ops.len() && 0 <= j < ops[i].blocks@.len() ==> chains_disjoint(
            (#[trigger] ops[i].blocks@[j]).chain@,
            outer,
        )
    &&& forall|i: int, j: int, i2: int, j2: int|
        0 <= i < ops.len() && 0 <= j < ops[i].blocks@.len() && 0 <= i2 < ops.len() && 0 <= j2
            < ops[i2].blocks@.len() && !(i == i2 && j == j2) ==> chains_disjoint(
            (#[trigger] ops[i].blocks@[j]).chain@,
            (#[trigger] ops[i2].blocks@[j2]).chain@,
        )
}

/// Region well-formedness survives a mutation that keeps every stored
/// region as it was (or drops it), changes links only at slots of the
/// outer order, appends only region-free operations, and grows the outer
/// order only by fresh slots.
pub proof fn lemma_regions_grow(
    old_ops: Seq<Operation>,
    new_ops: Seq<Operation>,
    old_outer: Seq<Ptr>,
    new_outer: Seq<Ptr>,
)
    requires
        regions_wf(old_ops, old_outer),
        old_ops.len() <= new_ops.len(),
        forall|i: int|
            0 <= i < old_ops.len() ==> (#[trigger] new_ops[i]).blocks == old_ops[i].blocks
                || new_ops[i].blocks@.len() == 0,
        forall|i: int|
            old_ops.len() <= i < new_ops.len() ==> (#[trigger] new_ops[i]).blocks@.len() == 0,
        forall|i: int|
            0 <= i < old_ops.len() && !old_outer.contains(Ptr { idx: i as usize }) ==> (
            #[trigger] new_ops[i]).ahead == old_ops[i].ahead && new_ops[i].behind
                == old_ops[i].behind,
        forall|x: Ptr|
            new_outer.contains(x) ==> old_outer.contains(x) || x.idx >= old_ops.len(),
    ensures
        regions_wf(new_ops, new_outer),
{
    assert forall|i: int, j: int|
        0 <= i < old_ops.len() && 0 <= j < old_ops[i].blocks@.len() implies chains_disjoint(
        (#[trigger] old_ops[i].blocks@[j]).chain@,
        Seq::<Ptr>::empty(),
    ) by {}
    lemma_regions_grow_exempt(old_ops, new_ops, old_outer, new_outer, Seq::empty());
}

/// Like [`lemma_regions_grow`], but also tolerating link changes at the
/// slots of one further chain, provided no stored region shares a slot
/// with it.
pub proof fn lemma_regions_grow_exempt(
    old_ops: Seq<Operation>,
    new_ops: Seq<Operation>,
    old_outer: Seq<Ptr>,
    new_outer: Seq<Ptr>,
    exempt: Seq<Ptr>,
)
    requires
        regions_wf(old_ops, old_outer),
        old_ops.len() <= new_ops.len(),
        forall|i: int, j: int|
            0 <= i < old_ops.len() && 0 <= j < old_ops[i].blocks@.len() ==> chains_disjoint(
                (#[trigger] old_ops[i].blocks@[j]).chain@,
                exempt,
            ),
        forall|i: int|
            0 <= i < old_ops.len() ==> (#[trigger] new_ops[i]).blocks == old_ops[i].blocks
                || new_ops[i].blocks@.len() == 0,
        forall|i: int|
            old_ops.len() <= i < new_ops.len() ==> (#[trigger] new_ops[i]).blocks@.len() == 0,
        forall|i: int|
            0 <= i < old_ops.len() && !old_outer.contains(Ptr { idx: i as usize })
                && !exempt.contains(Ptr { idx: i as usize }) ==> (#[trigger] new_ops[i]).ahead
                == old_ops[i].ahead && new_ops[i].behind == old_ops[i].behind,
        forall|x: Ptr|
            new_outer.contains(x) ==> old_outer.contains(x) || x.idx >= old_ops.len(),
    ensures
        regions_wf(new_ops, new_outer),
{
    assert forall|i: int, j: int|
        0 <= i < new_ops.len() && 0 <= j < new_ops[i].blocks@.len() implies block_wf(
        #[trigger] new_ops[i].blocks@[j],
        new_ops,
    ) && chains_disjoint((#[trigger] new_ops[i].blocks@[j]).chain@, new_outer) by {
        assert(new_ops[i].blocks == old_ops[i].blocks);
        let nb = old_ops[i].blocks@[j];
        assert(block_wf(nb, old_ops));
        assert forall|q: int| 0 <= q < nb.chain@.len() implies {
            let h = #[trigger] nb.chain@[q];
            &&& h.idx < new_ops.len()
            &&& new_ops[h.idx as int].ahead == old_ops[h.idx as int].ahead
            &&& new_ops[h.idx as int].behind == old_ops[h.idx as int].behind
        } by {
            let h = nb.chain@[q];
            assert(nb.chain@.contains(h));
            assert(!old_outer.contains(h));
        }
        assert forall|x: Ptr| nb.chain@.contains(x) implies !new_outer.contains(x) by {
            let q = choose|q: int| 0 <= q < nb.chain@.len() && nb.chain@[q] == x;
            assert(nb.chain@[q] == x);
            assert(x.idx < old_ops.len());
            assert(!old_outer.contains(x));
        }
    }
    assert forall|i: int, j: int, i2: int, j2: int|
        0 <= i < new_ops.len() && 0 <= j < new_ops[i].blocks@.len() && 0 <= i2 < new_ops.len()
            && 0 <= j2 < new_ops[i2].blocks@.len() && !(i == i2 && j == j2) implies
        chains_disjoint(
        (#[trigger] new_ops[i].blocks@[j]).chain@,
        (#[trigger] new_ops[i2].blocks@[j2]).chain@,
    ) by {
        assert(new_ops[i].blocks == old_ops[i].blocks);
        assert(new_ops[i2].blocks == old_ops[i2].blocks);
    }
}

/// The store discipline of one splice before a chain member: the two
/// relinked slots sit in the walked order, and the fresh slot carries no
/// regions.
#[verifier::rlimit(100)]
#[verifier::spinoff_prover]
pub proof fn lemma_frame_splice(c0: Ctx, b0: Block, c1: Ctx, b1: Block, root: Ptr, p: Ptr)
    requires
        crate::link::chain_links(b0.chain@, c0.operations@),
        b0.chain@.contains(root),
        p.idx == c0.operations@.len(),
        c1.blocks == c0.blocks,
        c1.operations@.len() == c0.operations@.len() + 1,
        c1.operations@[p.idx as int].blocks@.len() == 0,
        forall|j: int|
            0 <= j < c0.operations@.len() ==> (#[trigger] c1.operations@[j]) == (if j == root.idx {
                (Operation { behind: Some(p), ..c0.operations@[j] })
            } else if c0.operations@[root.idx as int].behind == Some(Ptr { idx: j as usize }) {
                (Operation { ahead: Some(p), ..c0.operations@[j] })
            } else {
                c0.operations@[j]
            }),
        b1.chain@ == b0.chain@.insert(chain_pos(b0.chain@, root), p),
    ensures
        engine_frame(c0, b0, c1, b1),
{
    reveal(engine_frame);    let w = choose|w: int| 0 <= w < b0.chain@.len() && b0.chain@[w] == root;
    assert(b0.chain@[w] == root);
    assert forall|j: int|
        0 <= j < c0.operations@.len() && !b0.chain@.contains(Ptr { idx: j as usize })
            && !slot_in_regions(c0.operations@, Ptr { idx: j as usize }) implies (
    #[trigger] c1.operations@[j]) == c0.operations@[j] by {
        assert(j != root.idx);
        if c0.operations@[root.idx as int].behind == Some(Ptr { idx: j as usize }) {
            assert(0 < w);
            assert(b0.chain@[w - 1] == Ptr { idx: j as usize });
            assert(b0.chain@.contains(Ptr { idx: j as usize }));
        }
    }
    assert forall|j: int|
        0 <= j < c0.operations@.len() implies (#[trigger] c1.operations@[j]).blocks@.len()
        <= c0.operations@[j].blocks@.len() by {}
    assert forall|x: Ptr|
        slot_in_regions(c1.operations@, x) implies slot_in_regions(c0.operations@, x) || x.idx
        >= c0.operations@.len() by {
        let (i, r) = choose|i: int, r: int|
            0 <= i < c1.operations@.len() && 0 <= r < c1.operations@[i].blocks@.len() && (
            #[trigger] c1.operations@[i].blocks@[r]).chain@.contains(x);
        assert(c1.operations@[i].blocks@[r].chain@.contains(x));
        if i < c0.operations@.len() {
            assert(c1.operations@[i].blocks == c0.operations@[i].blocks);
            assert(c0.operations@[i].blocks@[r].chain@.contains(x));
        }
    }
    assert forall|x: Ptr|
        b1.chain@.contains(x) implies b0.chain@.contains(x) || x.idx
        >= c0.operations@.len() by {
        let k = chain_pos(b0.chain@, root);
        let v = choose|v: int| 0 <= v < b1.chain@.len() && b1.chain@[v] == x;
        assert(b1.chain@[v] == x);
        if 0 <= k <= b0.chain@.len() {
            if v < k {
                assert(b0.chain@[v] == x);
            } else if v > k {
                assert(b0.chain@[v - 1] == x);
            }
        }
    }
}

/// The store discipline of one append at the tail: only the old tail is
/// relinked, and the fresh slot carries no regions.
#[verifier::rlimit(100)]
#[verifier::spinoff_prover]
pub proof fn lemma_frame_append(c0: Ctx, b0: Block, c1: Ctx, b1: Block, p: Ptr)
    requires
        crate::link::chain_links(b0.chain@, c0.operations@),
        b0.tail == (if b0.chain@.len() == 0 {
            None::<Ptr>
        } else {
            Some(b0.chain@[b0.chain@.len() - 1])
        }),
        p.idx == c0.operations@.len(),
        c1.blocks == c0.blocks,
        c1.operations@.len() == c0.operations@.len() + 1,
        c1.operations@[p.idx as int].blocks@.len() == 0,
        forall|j: int|
            0 <= j < c0.operations@.len() ==> (#[trigger] c1.operations@[j]) == (if b0.tail
                == Some(Ptr { idx: j as usize }) {
                (Operation { ahead: Some(p), ..c0.operations@[j] })
            } else {
                c0.operations@[j]
            }),
        b1.chain@ == b0.chain@.push(p),
    ensures
        engine_frame(c0, b0, c1, b1),
{
    reveal(engine_frame);    assert forall|j: int|
        0 <= j < c0.operations@.len() && !b0.chain@.contains(Ptr { idx: j as usize })
            && !slot_in_regions(c0.operations@, Ptr { idx: j as usize }) implies (
    #[trigger] c1.operations@[j]) == c0.operations@[j] by {
        if b0.tail == Some(Ptr { idx: j as usize }) {
            assert(b0.chain@.contains(b0.chain@[b0.chain@.len() - 1]));
        }
    }
    assert forall|x: Ptr|
        slot_in_regions(c1.operations@, x) implies slot_in_regions(c0.operations@, x) || x.idx
        >= c0.operations@.len() by {
        let (i, r) = choose|i: int, r: int|
            0 <= i < c1.operations@.len() && 0 <= r < c1.operations@[i].blocks@.len() && (
            #[trigger] c1.operations@[i].blocks@[r]).chain@.contains(x);
        assert(c1.operations@[i].blocks@[r].chain@.contains(x));
        if i < c0.operations@.len() {
            assert(c1.operations@[i].blocks == c0.operations@[i].blocks);
            assert(c0.operations@[i].blocks@[r].chain@.contains(x));
        }
    }
    assert forall|x: Ptr|
        b1.chain@.contains(x) implies b0.chain@.contains(x) || x.idx
        >= c0.operations@.len() by {
        let v = choose|v: int| 0 <= v < b1.chain@.len() && b1.chain@[v] == x;
        assert(b1.chain@[v] == x);
        if v < b0.chain@.len() {
            assert(b0.chain@[v] == x);
        }
    }
}

/// The store discipline of one in-place replacement: the touched slot is
/// the chain member itself, and the replacement carries no regions.
#[verifier::rlimit(100)]
#[verifier::spinoff_prover]
pub proof fn lemma_frame_replace(c0: Ctx, b0: Block, c1: Ctx, cur: Ptr)
    requires
        b0.chain@.contains(cur),
        c1.blocks == c0.blocks,
        c1.operations@.len() == c0.operations@.len(),
        c1.operations@[cur.idx as int].blocks@.len() == 0,
        forall|j: int|
            0 <= j < c0.operations@.len() && j != cur.idx ==> (#[trigger] c1.operations@[j])
                == c0.operations@[j],
    ensures
        engine_frame(c0, b0, c1, b0),
{
    reveal(engine_frame);    assert forall|x: Ptr|
        slot_in_regions(c1.operations@, x) implies slot_in_regions(c0.operations@, x) || x.idx
        >= c0.operations@.len() by {
        let (i, r) = choose|i: int, r: int|
            0 <= i < c1.operations@.len() && 0 <= r < c1.operations@[i].blocks@.len() && (
            #[trigger] c1.operations@[i].blocks@[r]).chain@.contains(x);
        assert(c1.operations@[i].blocks@[r].chain@.contains(x));
        if i != cur.idx {
            assert(c0.operations@[i].blocks@[r].chain@.contains(x));
        }
    }
}

/// A cursor over one block during a rewrite pass; it owns the allocation
/// context and the block while the pass runs.
pub struct RewritingCtx {
    pub ctx: Ctx,
    pub block: Block,
    /// The cursor: an index into the block's storage order.
    pub op: Ptr,
}

impl RewritingCtx {
    /// The engine's invariant: the block is well formed in the context,
    /// and so is every region nested in a stored operation, with no two
    /// sequences sharing a slot.
    pub open spec fn wf(&self) -> bool {
        &&& block_wf(self.block, self.ctx.operations@)
        &&& regions_wf(self.ctx.operations@, self.block.chain@)
    }

    /// Whether the cursor has run off the end of the storage order.
    pub open spec fn spec_done(&self) -> bool {
        self.op.idx >= self.block.ops@.len()
    }

    /// The handle under the cursor.
    pub open spec fn cur_ptr(&self) -> Ptr {
        self.block.ops@[self.op.idx as int]
    }

    /// The operation under the cursor.
    pub open spec fn cur_op(&self) -> Operation {
        self.ctx.operations@[self.cur_ptr().idx as int]
    }

    /// Packs a cursor at position `op`.
    pub fn new(ctx: Ctx, block: Block, op: Ptr) -> (r: Self)
        ensures
            r.ctx == ctx,
            r.block == block,
            r.op == op,
    {
        Self { ctx, block, op }
    }

    /// Packs a cursor at the first storage position.
    pub fn from_start(ctx: Ctx, block: Block) -> (r: Self)
        ensures
            r.ctx == ctx,
            r.block == block,
            r.op.idx == 0,
    {
        Self::new(ctx, block, Ptr::new(0))
    }

    /// Proves that the handle under the cursor is in range.
    pub proof fn lemma_cur_in_range(&self)
        requires
            self.wf(),
            !self.spec_done(),
        ensures
            self.cur_ptr().idx < self.ctx.operations@.len(),
            self.block.chain@.contains(self.cur_ptr()),
    {
        let ch = self.block.chain@;
        assert(ch.contains(self.cur_ptr()));
        let w = choose|w: int| 0 <= w < ch.len() && ch[w] == self.cur_ptr();
        assert(ch[w] == self.cur_ptr());
    }

    /// Allocates `op`, links it as the new tail of the sequence, records
    /// it at the end of the storage order, and fills its result's
    /// definition reference if none was set.
    ///
    /// Only region-free operations can enter a sequence mid-pass: keeping
    /// new regions out preserves the nesting invariant without re-proving
    /// it for every sequence in the store.
    pub fn alloc_op(&mut self, op: Operation) -> (p: Ptr)
        requires
            old(self).wf(),
            op.unlinked(),
            op.blocks@.len() == 0,
        ensures
            final(self).wf(),
            p.idx == old(self).ctx.operations@.len(),
            final(self).op == old(self).op,
            final(self).block.id == old(self).block.id,
            final(self).block.ops@ =~= old(self).block.ops@.push(p),
            final(self).block.chain@ =~= old(self).block.chain@.push(p),
            final(self).ctx.blocks == old(self).ctx.blocks,
            final(self).ctx.values == old(self).ctx.values,
            final(self).ctx.operations@.len() == old(self).ctx.operations@.len() + 1,
            final(self).ctx.operations@[p.idx as int] == (Operation {
                behind: old(self).block.tail,
                result: fill_def(op.result, p),
                ..op
            }),
            forall|j: int|
                0 <= j < old(self).ctx.operations@.len() ==> (#[trigger] final(self).ctx.operations@[j])
                    == (if old(self).block.tail == Some(Ptr { idx: j as usize }) {
                    (Operation { ahead: Some(p), ..old(self).ctx.operations@[j] })
                } else {
                    old(self).ctx.operations@[j]
                }),
    {
        let p = self.block.append(&mut self.ctx, op);
        let node = self.ctx.get_operation_mut(OperationId(p.idx));
        match &mut node.result {
            Some(v) => {
                if v.def.is_none() {
                    v.def = Some(p);
                }
            },
            None => {},
        }
        proof {
            assert forall|x: Ptr| self.block.chain@.contains(x) implies old(
                self,
            ).block.chain@.contains(x) || x.idx >= old(self).ctx.operations@.len() by {
                let w = choose|w: int|
                    0 <= w < self.block.chain@.len() && self.block.chain@[w] == x;
                assert(self.block.chain@[w] == x);
                if w < old(self).block.chain@.len() {
                    assert(old(self).block.chain@[w] == x);
                }
            }
            lemma_regions_grow(
                old(self).ctx.operations@,
                self.ctx.operations@,
                old(self).block.chain@,
                self.block.chain@,
            );
        }
        proof {
            let ops = self.ctx.operations@;
            let ch = self.block.chain@;
            assert forall|i: int| 0 <= i < ch.len() implies {
                let q = #[trigger] ch[i];
                &&& q.idx < ops.len()
                &&& ops[q.idx as int].ahead == (if i + 1 < ch.len() {
                    Some(ch[i + 1])
                } else {
                    None::<Ptr>
                })
                &&& ops[q.idx as int].behind == (if 0 < i {
                    Some(ch[i - 1])
                } else {
                    None::<Ptr>
                })
            } by {}
        }
        p
    }

    /// Moves the cursor one storage slot forward.
    pub fn advance(&mut self)
        requires
            old(self).op.idx < old(self).block.ops@.len(),
        ensures
            final(self).op.idx == old(self).op.idx + 1,
            final(self).ctx == old(self).ctx,
            final(self).block == old(self).block,
    {
        let n = self.block.len();
        proof {
            assert(self.op.idx < n);
        }
        self.op = Ptr::new(self.op.idx + 1);
    }

    /// Reads the operation under the cursor.
    pub fn get(&self) -> (r: &Operation)
        requires
            self.wf(),
            !self.spec_done(),
        ensures
            *r == self.cur_op(),
    {
        proof {
            self.lemma_cur_in_range();
        }
        let ptr = self.block.ops[self.op.idx];
        self.ctx.get_operation(OperationId(ptr.idx))
    }

    /// Borrows the operation under the cursor mutably.
    ///
    /// The caller answers for keeping the sequence links intact.
    pub fn get_mut(&mut self) -> (r: &mut Operation)
        requires
            old(self).wf(),
            !old(self).spec_done(),
        ensures
            *r == old(self).cur_op(),
            final(self).ctx.operations@ == old(self).ctx.operations@.update(
                old(self).cur_ptr().idx as int,
                *final(r),
            ),
            final(self).ctx.blocks == old(self).ctx.blocks,
            final(self).ctx.values == old(self).ctx.values,
            final(self).block == old(self).block,
            final(self).op == old(self).op,
    {
        proof {
            old(self).lemma_cur_in_range();
        }
        let ptr = self.block.ops[self.op.idx];
        self.ctx.get_operation_mut(OperationId(ptr.idx))
    }

    /// Reads the operation behind an arbitrary handle.
    pub fn deref(&self, ptr: Ptr) -> (r: &Operation)
        requires
            ptr.idx < self.ctx.operations@.len(),
        ensures
            *r == self.ctx.operations@[ptr.idx as int],
    {
        self.ctx.get_operation(OperationId(ptr.idx))
    }

    /// Borrows the operation behind an arbitrary handle mutably.
    ///
    /// The caller answers for keeping the sequence links intact.
    pub fn deref_mut(&mut self, ptr: Ptr) -> (r: &mut Operation)
        requires
            ptr.idx < old(self).ctx.operations@.len(),
        ensures
            *r == old(self).ctx.operations@[ptr.idx as int],
            final(self).ctx.operations@ == old(self).ctx.operations@.update(
                ptr.idx as int,
                *final(r),
            ),
            final(self).ctx.blocks == old(self).ctx.blocks,
            final(self).ctx.values == old(self).ctx.values,
            final(self).block == old(self).block,
            final(self).op == old(self).op,
    {
        self.ctx.get_operation_mut(OperationId(ptr.idx))
    }

    /// The result value of the operation behind `ptr`.
    ///
    /// Asking for the result of a result-less operation is a programmer
    /// error.
    pub fn result_of(&self, ptr: Ptr) -> (v: Value)
        requires
            ptr.idx < self.ctx.operations@.len(),
            self.ctx.operations@[ptr.idx as int].result is Some,
        ensures
            Some(v) == self.ctx.operations@[ptr.idx as int].result,
    {
        self.ctx.get_operation(OperationId(ptr.idx)).get_result()
    }

    /// Splices `op` immediately before the cursor in program order; the
    /// cursor itself does not move and does not revisit the new node.
    /// As with [`RewritingCtx::alloc_op`], the spliced operation carries
    /// no regions of its own.
    #[verifier::rlimit(100)]
    #[verifier::spinoff_prover]
    pub fn insert_behind(&mut self, op: Operation) -> (p: Ptr)
        requires
            old(self).wf(),
            !old(self).spec_done(),
            op.unlinked(),
            op.blocks@.len() == 0,
        ensures
            final(self).wf(),
            p.idx == old(self).ctx.operations@.len(),
            final(self).op == old(self).op,
            final(self).block.ops == old(self).block.ops,
            final(self).block.id == old(self).block.id,
            final(self).block.chain@ =~= old(self).block.chain@.insert(
                chain_pos(old(self).block.chain@, old(self).cur_ptr()),
                p,
            ),
            final(self).ctx.blocks == old(self).ctx.blocks,
            final(self).ctx.values == old(self).ctx.values,
            final(self).ctx.operations@.len() == old(self).ctx.operations@.len() + 1,
            final(self).ctx.operations@[p.idx as int] == (Operation {
                behind: old(self).cur_op().behind,
                ahead: Some(old(self).cur_ptr()),
                ..op
            }),
            forall|j: int|
                0 <= j < old(self).ctx.operations@.len() ==> (#[trigger] final(self).ctx.operations@[j])
                    == (if j == old(self).cur_ptr().idx {
                    (Operation { behind: Some(p), ..old(self).ctx.operations@[j] })
                } else if old(self).cur_op().behind == Some(Ptr { idx: j as usize }) {
                    (Operation { ahead: Some(p), ..old(self).ctx.operations@[j] })
                } else {
                    old(self).ctx.operations@[j]
                }),
    {
        proof {
            old(self).lemma_cur_in_range();
        }
        let root = self.block.ops[self.op.idx];
        let p = self.block.insert_behind(&mut self.ctx, root, op);
        proof {
            assert forall|x: Ptr| self.block.chain@.contains(x) implies old(
                self,
            ).block.chain@.contains(x) || x.idx >= old(self).ctx.operations@.len() by {
                let och = old(self).block.chain@;
                let k = crate::link::chain_pos(och, root);
                let w = choose|w: int|
                    0 <= w < self.block.chain@.len() && self.block.chain@[w] == x;
                assert(self.block.chain@[w] == x);
                if w < k {
                    assert(och[w] == x);
                } else if w > k {
                    assert(och[w - 1] == x);
                }
            }
            lemma_regions_grow(
                old(self).ctx.operations@,
                self.ctx.operations@,
                old(self).block.chain@,
                self.block.chain@,
            );
        }
        p
    }

    /// The operand list of the operation under the cursor.
    pub fn operands(&self) -> (r: &Vec<Value>)
        requires
            self.wf(),
            !self.spec_done(),
        ensures
            r@ == self.cur_op().operands@,
    {
        &self.get().operands
    }

    /// The name of the operation under the cursor.
    pub fn name(&self) -> (r: &'static str)
        requires
            self.wf(),
            !self.spec_done(),
        ensures
            r == self.cur_op().name,
    {
        self.get().name
    }

    /// The result of the operation under the cursor, if it has one.
    pub fn result(&self) -> (r: Option<Value>)
        requires
            self.wf(),
            !self.spec_done(),
        ensures
            r == self.cur_op().result,
    {
        self.get().result
    }

    /// Overwrites the operation under the cursor with `new`, keeping the
    /// slot's program-order links: replacement never changes adjacency.
    /// As with [`RewritingCtx::alloc_op`], the replacement carries no
    /// regions of its own.
    pub fn replace(&mut self, new: Operation)
        requires
            old(self).wf(),
            !old(self).spec_done(),
            new.unlinked(),
            new.blocks@.len() == 0,
        ensures
            final(self).wf(),
            final(self).op == old(self).op,
            final(self).block == old(self).block,
            final(self).ctx.blocks == old(self).ctx.blocks,
            final(self).ctx.values == old(self).ctx.values,
            final(self).ctx.operations@ =~= old(self).ctx.operations@.update(
                old(self).cur_ptr().idx as int,
                (Operation {
                    behind: old(self).cur_op().behind,
                    ahead: old(self).cur_op().ahead,
                    ..new
                }),
            ),
    {
        proof {
            old(self).lemma_cur_in_range();
        }
        let ptr = self.block.ops[self.op.idx];
        let slot = self.ctx.get_operation_mut(OperationId(ptr.idx));
        let b = slot.behind;
        let a = slot.ahead;
        *slot = new;
        slot.behind = b;
        slot.ahead = a;
        proof {
            lemma_regions_grow(
                old(self).ctx.operations@,
                self.ctx.operations@,
                old(self).block.chain@,
                self.block.chain@,
            );
        }
        proof {
            let ops = self.ctx.operations@;
            let ch = self.block.chain@;
            assert forall|i: int| 0 <= i < ch.len() implies {
                let q = #[trigger] ch[i];
                &&& q.idx < ops.len()
                &&& ops[q.idx as int].ahead == (if i + 1 < ch.len() {
                    Some(ch[i + 1])
                } else {
                    None::<Ptr>
                })
                &&& ops[q.idx as int].behind == (if 0 < i {
                    Some(ch[i - 1])
                } else {
                    None::<Ptr>
                })
            } by {}
        }
    }

    /// The fresh-identifier counter, for rules that synthesise values.
    pub fn values(&mut self) -> (c: &mut Counter)
        ensures
            *c == old(self).ctx.values,
            final(self).ctx.values == *final(c),
            final(self).ctx.operations == old(self).ctx.operations,
            final(self).ctx.blocks == old(self).ctx.blocks,
            final(self).block == old(self).block,
            final(self).op == old(self).op,
    {
        &mut self.ctx.values
    }

    /// Whether the cursor has visited every storage slot.
    pub fn done(&self) -> (r: bool)
        ensures
            r == self.spec_done(),
    {
        self.op.idx >= self.block.len()
    }

    /// Gives the context and the block back.
    pub fn release(self) -> (r: (Ctx, Block))
        ensures
            r.0 == self.ctx,
            r.1 == self.block,
    {
        (self.ctx, self.block)
    }
}

/// One driver step: the pass ran once with the cursor where `pre` holds
/// it, producing the engine state that `post` repeats with the cursor
/// moved one storage slot on. The step keeps the storage order and the
/// store discipline.
pub open spec fn pass_step<R: RewriteRule>(
    pass: RewriteRuleSet<R>,
    pre: RewritingCtx,
    post: RewritingCtx,
) -> bool {
    &&& post.op.idx == pre.op.idx + 1
    &&& post.block.ops == pre.block.ops
    &&& post.block.id == pre.block.id
    &&& engine_frame(pre.ctx, pre.block, post.ctx, post.block)
    &&& pass.spec_applied(pre, (RewritingCtx { ctx: post.ctx, block: post.block, op: pre.op }))
}

/// The driver's trace over `pass` from `ctx0` and `block0`: state `i` is
/// the engine just before the pass runs at storage index `i`, and each
/// adjacent pair of states is one driver step.
pub open spec fn driver_trace<R: RewriteRule>(
    pass: RewriteRuleSet<R>,
    tr: Seq<RewritingCtx>,
    ctx0: Ctx,
    block0: Block,
) -> bool {
    &&& tr.len() == block0.ops@.len() + 1
    &&& tr[0] == (RewritingCtx { ctx: ctx0, block: block0, op: Ptr { idx: 0 } })
    &&& forall|i: int| 0 <= i < block0.ops@.len() ==> #[trigger] pass_step(pass, tr[i], tr[i + 1])
}

/// No operation of the block's storage order carries a region.
pub open spec fn region_members_flat(ops: Seq<Operation>, b: Block) -> bool {
    forall|q: int|
        0 <= q < b.ops@.len() ==> (#[trigger] ops[b.ops@[q].idx as int]).blocks@.len() == 0
}

/// `cd` is `cm` with the first region of the operation at `z` taken out
/// and everything else in place.
pub open spec fn detached_at(cm: Ctx, z: Ptr, cd: Ctx) -> bool {
    &&& cd.blocks == cm.blocks
    &&& cd.values == cm.values
    &&& cd.operations@.len() == cm.operations@.len()
    &&& forall|i: int|
        0 <= i < cm.operations@.len() && i != z.idx ==> (#[trigger] cd.operations@[i])
            == cm.operations@[i]
    &&& cd.operations@[z.idx as int].blocks@ == cm.operations@[z.idx as int].blocks@.drop_first()
    &&& cd.operations@[z.idx as int].name == cm.operations@[z.idx as int].name
    &&& cd.operations@[z.idx as int].operands == cm.operations@[z.idx as int].operands
    &&& cd.operations@[z.idx as int].result == cm.operations@[z.idx as int].result
    &&& cd.operations@[z.idx as int].attributes == cm.operations@[z.idx as int].attributes
    &&& cd.operations@[z.idx as int].ahead == cm.operations@[z.idx as int].ahead
    &&& cd.operations@[z.idx as int].behind == cm.operations@[z.idx as int].behind
}

/// `c1` is `ce` with `re` hung back as the first region of the operation
/// at `z` and everything else in place.
pub open spec fn reattached_at(ce: Ctx, z: Ptr, re: Block, c1: Ctx) -> bool {
    &&& c1.blocks == ce.blocks
    &&& c1.values == ce.values
    &&& c1.operations@.len() == ce.operations@.len()
    &&& forall|i: int|
        0 <= i < ce.operations@.len() && i != z.idx ==> (#[trigger] c1.operations@[i])
            == ce.operations@[i]
    &&& c1.operations@[z.idx as int].blocks@ == ce.operations@[z.idx as int].blocks@.insert(0, re)
    &&& c1.operations@[z.idx as int].name == ce.operations@[z.idx as int].name
    &&& c1.operations@[z.idx as int].operands == ce.operations@[z.idx as int].operands
    &&& c1.operations@[z.idx as int].result == ce.operations@[z.idx as int].result
    &&& c1.operations@[z.idx as int].attributes == ce.operations@[z.idx as int].attributes
    &&& c1.operations@[z.idx as int].ahead == ce.operations@[z.idx as int].ahead
    &&& c1.operations@[z.idx as int].behind == ce.operations@[z.idx as int].behind
}

/// The descent through a one-operation, one-region block, laid open: the
/// region was detached, the pass was driven over it front to back, and
/// the result was hung back in its place. (Deeper regions would have been
/// walked in turn, but a region whose members carry none is done after
/// its own walk.)
pub open spec fn descent_exposed<R: RewriteRule>(
    pass: RewriteRuleSet<R>,
    cm: Ctx,
    bm: Block,
    c1: Ctx,
) -> bool {
    exists|cd: Ctx, str: Seq<RewritingCtx>|
        {
            &&& detached_at(cm, bm.ops@[0], cd)
            &&& block_wf(cm.operations@[bm.ops@[0].idx as int].blocks@[0], cd.operations@)
            &&& #[trigger] driver_trace(
                pass,
                str,
                cd,
                cm.operations@[bm.ops@[0].idx as int].blocks@[0],
            )
            &&& reattached_at(str[str.len() - 1].ctx, bm.ops@[0], str[str.len() - 1].block, c1)
        }
}

/// What the region descent does to the state the flat pass left: every
/// region of every operation in the block's storage order is processed in
/// place, depth first. The walked order itself and its operations' own
/// names, operands, results, attributes and links do not move — only
/// their regions are rewritten; a block whose operations carry no regions
/// passes through untouched; and a one-operation block with a single
/// region of region-free members has its whole descent laid open.
pub open spec fn descent_rel<R: RewriteRule>(
    pass: RewriteRuleSet<R>,
    cm: Ctx,
    bm: Block,
    c1: Ctx,
    b1: Block,
) -> bool {
    &&& b1 == bm
    &&& engine_frame(cm, bm, c1, b1)
    &&& forall|x: Ptr|
        bm.chain@.contains(x) ==> {
            &&& (#[trigger] c1.operations@[x.idx as int]).name == cm.operations@[x.idx as int].name
            &&& c1.operations@[x.idx as int].operands == cm.operations@[x.idx as int].operands
            &&& c1.operations@[x.idx as int].result == cm.operations@[x.idx as int].result
            &&& c1.operations@[x.idx as int].attributes == cm.operations@[x.idx as int].attributes
            &&& c1.operations@[x.idx as int].ahead == cm.operations@[x.idx as int].ahead
            &&& c1.operations@[x.idx as int].behind == cm.operations@[x.idx as int].behind
            &&& c1.operations@[x.idx as int].blocks@.len() == cm.operations@[
                x.idx as int
            ].blocks@.len()
        }
    &&& region_members_flat(cm.operations@, bm) ==> c1 == cm
    &&& (bm.ops@.len() == 1 && cm.operations@[bm.ops@[0].idx as int].blocks@.len() == 1
        && region_members_flat(
        cm.operations@,
        cm.operations@[bm.ops@[0].idx as int].blocks@[0],
    )) ==> descent_exposed(pass, cm, bm, c1)
}

/// Along a driver trace over a block whose operations carry no regions,
/// the storage order is pinned and the operations it names stay
/// region-free: the pass can splice and replace, never nest.
pub proof fn lemma_trace_stays_flat<R: RewriteRule>(
    pass: RewriteRuleSet<R>,
    tr: Seq<RewritingCtx>,
    c0: Ctx,
    b0: Block,
    i: int,
)
    requires
        driver_trace(pass, tr, c0, b0),
        0 <= i < tr.len(),
        forall|q: int|
            0 <= q < b0.ops@.len() ==> (#[trigger] b0.ops@[q]).idx < c0.operations@.len(),
        region_members_flat(c0.operations@, b0),
    ensures
        tr[i].block.ops == b0.ops,
        tr[i].ctx.operations@.len() >= c0.operations@.len(),
        region_members_flat(tr[i].ctx.operations@, tr[i].block),
    decreases i,
{
    reveal(engine_frame);
    if i == 0 {
        assert(tr[0] == (RewritingCtx { ctx: c0, block: b0, op: Ptr { idx: 0 } }));
    } else {
        lemma_trace_stays_flat(pass, tr, c0, b0, i - 1);
        let k = i - 1;
        assert(pass_step(pass, tr[k], tr[k + 1]));
        assert(pass_step(pass, tr[i - 1], tr[i]));
        assert forall|q: int|
            0 <= q < b0.ops@.len() implies (#[trigger] tr[i].ctx.operations@[b0.ops@[
            q
        ].idx as int]).blocks@.len() == 0 by {
            let j = b0.ops@[q].idx as int;
            assert(tr[i - 1].ctx.operations@[j].blocks@.len() == 0);
            assert(tr[i].ctx.operations@[j].blocks@.len() <= tr[i - 1].ctx.operations@[
                j
            ].blocks@.len());
        }
    }
}

/// Detaching region `r` of the operation at `z` — all links kept, only
/// that operation's region list shortened — keeps the outer order and
/// every remaining sequence well formed, and leaves the detached region
/// fit to be walked as a sequence of its own.
#[verifier::rlimit(100)]
#[verifier::spinoff_prover]
pub proof fn lemma_detach_region(
    ops0: Seq<Operation>,
    ops1: Seq<Operation>,
    ch: Seq<Ptr>,
    z: Ptr,
    r: int,
    b0: Block,
)
    requires
        crate::link::chain_links(ch, ops0),
        regions_wf(ops0, ch),
        z.idx < ops0.len(),
        0 <= r < ops0[z.idx as int].blocks@.len(),
        b0 == ops0[z.idx as int].blocks@[r],
        ops1.len() == ops0.len(),
        forall|i: int| 0 <= i < ops1.len() && i != z.idx ==> (#[trigger] ops1[i]) == ops0[i],
        ops1[z.idx as int].blocks@ == ops0[z.idx as int].blocks@.remove(r),
        ops1[z.idx as int].ahead == ops0[z.idx as int].ahead,
        ops1[z.idx as int].behind == ops0[z.idx as int].behind,
    ensures
        crate::link::chain_links(ch, ops1),
        block_wf(b0, ops1),
        regions_wf(ops1, ch),
        regions_wf(ops1, b0.chain@),
        chains_disjoint(b0.chain@, ch),
{
    assert(block_wf(b0, ops0));
    assert(chains_disjoint(b0.chain@, ch));
    assert(crate::link::chain_links(ch, ops1)) by {
        assert forall|q: int| 0 <= q < ch.len() implies {
            let h = #[trigger] ch[q];
            &&& h.idx < ops1.len()
            &&& ops1[h.idx as int].ahead == (if q + 1 < ch.len() {
                Some(ch[q + 1])
            } else {
                None::<Ptr>
            })
            &&& ops1[h.idx as int].behind == (if 0 < q {
                Some(ch[q - 1])
            } else {
                None::<Ptr>
            })
        } by {}
    }
    assert(block_wf(b0, ops1)) by {
        assert forall|q: int| 0 <= q < b0.chain@.len() implies {
            let h = #[trigger] b0.chain@[q];
            &&& h.idx < ops1.len()
            &&& ops1[h.idx as int].ahead == (if q + 1 < b0.chain@.len() {
                Some(b0.chain@[q + 1])
            } else {
                None::<Ptr>
            })
            &&& ops1[h.idx as int].behind == (if 0 < q {
                Some(b0.chain@[q - 1])
            } else {
                None::<Ptr>
            })
        } by {}
    }
    assert forall|i: int, j: int|
        0 <= i < ops1.len() && 0 <= j < ops1[i].blocks@.len() implies {
        let nb = #[trigger] ops1[i].blocks@[j];
        let ja = if i == z.idx && j >= r {
            j + 1
        } else {
            j
        };
        nb == ops0[i].blocks@[ja] && !(i == z.idx && ja == r)
    } by {
        if i == z.idx {
            assert(ops1[i].blocks@ == ops0[i].blocks@.remove(r));
        }
    }
    assert forall|i: int, j: int|
        0 <= i < ops1.len() && 0 <= j < ops1[i].blocks@.len() implies block_wf(
        #[trigger] ops1[i].blocks@[j],
        ops1,
    ) && chains_disjoint((#[trigger] ops1[i].blocks@[j]).chain@, ch) && chains_disjoint(
        (#[trigger] ops1[i].blocks@[j]).chain@,
        b0.chain@,
    ) by {
        let nb = ops1[i].blocks@[j];
        let ja = if i == z.idx && j >= r {
            j + 1
        } else {
            j
        };
        assert(nb == ops0[i].blocks@[ja]);
        assert(block_wf(nb, ops0));
        assert(chains_disjoint(nb.chain@, b0.chain@));
        assert forall|q: int| 0 <= q < nb.chain@.len() implies {
            let h = #[trigger] nb.chain@[q];
            &&& h.idx < ops1.len()
            &&& ops1[h.idx as int].ahead == (if q + 1 < nb.chain@.len() {
                Some(nb.chain@[q + 1])
            } else {
                None::<Ptr>
            })
            &&& ops1[h.idx as int].behind == (if 0 < q {
                Some(nb.chain@[q - 1])
            } else {
                None::<Ptr>
            })
        } by {}
    }
    assert forall|i: int, j: int, i2: int, j2: int|
        0 <= i < ops1.len() && 0 <= j < ops1[i].blocks@.len() && 0 <= i2 < ops1.len() && 0 <= j2
            < ops1[i2].blocks@.len() && !(i == i2 && j == j2) implies chains_disjoint(
        (#[trigger] ops1[i].blocks@[j]).chain@,
        (#[trigger] ops1[i2].blocks@[j2]).chain@,
    ) by {
        let ja = if i == z.idx && j >= r {
            j + 1
        } else {
            j
        };
        let jb = if i2 == z.idx && j2 >= r {
            j2 + 1
        } else {
            j2
        };
        assert(ops1[i].blocks@[j] == ops0[i].blocks@[ja]);
        assert(ops1[i2].blocks@[j2] == ops0[i2].blocks@[jb]);
    }
}

/// Hanging a processed region back at its place restores the whole
/// invariant, provided the processing kept the store discipline and left
/// the region and every stored sequence well formed.
#[verifier::rlimit(100)]
#[verifier::spinoff_prover]
pub proof fn lemma_reattach_region(
    cd: Ctx,
    ce: Ctx,
    c1: Ctx,
    ch: Seq<Ptr>,
    z: Ptr,
    r: int,
    b0: Block,
    b2: Block,
)
    requires
        crate::link::chain_links(ch, cd.operations@),
        regions_wf(cd.operations@, ch),
        regions_wf(cd.operations@, b0.chain@),
        chains_disjoint(b0.chain@, ch),
        block_wf(b0, cd.operations@),
        ch.contains(z),
        z.idx < cd.operations@.len(),
        engine_frame(cd, b0, ce, b2),
        block_wf(b2, ce.operations@),
        regions_wf(ce.operations@, b2.chain@),
        c1.operations@.len() == ce.operations@.len(),
        forall|i: int|
            0 <= i < ce.operations@.len() && i != z.idx ==> (#[trigger] c1.operations@[i])
                == ce.operations@[i],
        c1.operations@[z.idx as int].blocks@ == ce.operations@[z.idx as int].blocks@.insert(
            r,
            b2,
        ),
        0 <= r <= ce.operations@[z.idx as int].blocks@.len(),
        c1.operations@[z.idx as int].ahead == ce.operations@[z.idx as int].ahead,
        c1.operations@[z.idx as int].behind == ce.operations@[z.idx as int].behind,
    ensures
        crate::link::chain_links(ch, c1.operations@),
        regions_wf(c1.operations@, ch),
        ce.operations@[z.idx as int] == cd.operations@[z.idx as int],
        forall|q: int|
            0 <= q < ch.len() && ch[q] != z ==> c1.operations@[(#[trigger] ch[q]).idx as int]
                == cd.operations@[ch[q].idx as int],
{
    // distil the store discipline into the facts the children need
    assert(ce.operations@.len() >= cd.operations@.len()
        && (forall|x: Ptr|
        slot_in_regions(ce.operations@, x) ==> slot_in_regions(cd.operations@, x) || x.idx
            >= cd.operations@.len()) && (forall|x: Ptr|
        b2.chain@.contains(x) ==> b0.chain@.contains(x) || x.idx >= cd.operations@.len())) by {
        reveal(engine_frame);
    }
    assert forall|q: int| 0 <= q < ch.len() implies {
        let h = #[trigger] ch[q];
        &&& h.idx < cd.operations@.len()
        &&& ce.operations@[h.idx as int] == cd.operations@[h.idx as int]
    } by {
        let h = ch[q];
        assert(ch.contains(h));
        assert(!b0.chain@.contains(h));
        assert(!slot_in_regions(cd.operations@, h)) by {
            if slot_in_regions(cd.operations@, h) {
                let (i, rr) = choose|i: int, rr: int|
                    0 <= i < cd.operations@.len() && 0 <= rr < cd.operations@[i].blocks@.len()
                        && (#[trigger] cd.operations@[i].blocks@[rr]).chain@.contains(h);
                assert(cd.operations@[i].blocks@[rr].chain@.contains(h));
                assert(chains_disjoint(cd.operations@[i].blocks@[rr].chain@, ch));
            }
        }
        assert(ce.operations@[h.idx as int] == cd.operations@[h.idx as int]) by {
            reveal(engine_frame);
        }
    }
    assert(crate::link::chain_links(ch, c1.operations@)) by {
        assert forall|q: int| 0 <= q < ch.len() implies {
            let h = #[trigger] ch[q];
            &&& h.idx < c1.operations@.len()
            &&& c1.operations@[h.idx as int].ahead == (if q + 1 < ch.len() {
                Some(ch[q + 1])
            } else {
                None::<Ptr>
            })
            &&& c1.operations@[h.idx as int].behind == (if 0 < q {
                Some(ch[q - 1])
            } else {
                None::<Ptr>
            })
        } by {}
    }
    // no stored sequence of the returned store holds the owner's slot
    assert(!slot_in_regions(ce.operations@, z)) by {
        if slot_in_regions(ce.operations@, z) {
            assert(slot_in_regions(cd.operations@, z) || z.idx >= cd.operations@.len());
            if slot_in_regions(cd.operations@, z) {
                let (i, rr) = choose|i: int, rr: int|
                    0 <= i < cd.operations@.len() && 0 <= rr < cd.operations@[i].blocks@.len()
                        && (#[trigger] cd.operations@[i].blocks@[rr]).chain@.contains(z);
                assert(cd.operations@[i].blocks@[rr].chain@.contains(z));
                assert(chains_disjoint(cd.operations@[i].blocks@[rr].chain@, ch));
            }
        }
    }
    assert(!b2.chain@.contains(z)) by {
        if b2.chain@.contains(z) {
            assert(b0.chain@.contains(z) || z.idx >= cd.operations@.len());
        }
    }
    lemma_reattach_wf(cd, ce, c1, ch, z, r, b0, b2);
    lemma_reattach_pairwise(ce, c1, z, r, b2);
    assert(ce.operations@[z.idx as int] == cd.operations@[z.idx as int]) by {
        let w = choose|w: int| 0 <= w < ch.len() && ch[w] == z;
        assert(ch[w] == z);
    }
    assert forall|q: int|
        0 <= q < ch.len() && ch[q] != z implies c1.operations@[(#[trigger] ch[q]).idx as int]
        == cd.operations@[ch[q].idx as int] by {
        let h = ch[q];
        assert(ce.operations@[h.idx as int] == cd.operations@[h.idx as int]);
        assert(h.idx != z.idx) by {
            let w = choose|w: int| 0 <= w < ch.len() && ch[w] == z;
            assert(ch[w] == z);
            if h.idx == z.idx {
                assert(crate::link::chain_links(ch, cd.operations@));
            }
        }
    }
}

/// Every stored sequence of the reattached store is well formed over it
/// and clear of the outer order.
#[verifier::rlimit(100)]
#[verifier::spinoff_prover]
proof fn lemma_reattach_wf(
    cd: Ctx,
    ce: Ctx,
    c1: Ctx,
    ch: Seq<Ptr>,
    z: Ptr,
    r: int,
    b0: Block,
    b2: Block,
)
    requires
        regions_wf(cd.operations@, ch),
        chains_disjoint(b0.chain@, ch),
        crate::link::chain_links(ch, cd.operations@),
        z.idx < cd.operations@.len(),
        ce.operations@.len() >= cd.operations@.len(),
        forall|x: Ptr|
            slot_in_regions(ce.operations@, x) ==> slot_in_regions(cd.operations@, x) || x.idx
                >= cd.operations@.len(),
        forall|x: Ptr|
            b2.chain@.contains(x) ==> b0.chain@.contains(x) || x.idx >= cd.operations@.len(),
        block_wf(b2, ce.operations@),
        regions_wf(ce.operations@, b2.chain@),
        !slot_in_regions(ce.operations@, z),
        !b2.chain@.contains(z),
        c1.operations@.len() == ce.operations@.len(),
        forall|i: int|
            0 <= i < ce.operations@.len() && i != z.idx ==> (#[trigger] c1.operations@[i])
                == ce.operations@[i],
        c1.operations@[z.idx as int].blocks@ == ce.operations@[z.idx as int].blocks@.insert(
            r,
            b2,
        ),
        0 <= r <= ce.operations@[z.idx as int].blocks@.len(),
        c1.operations@[z.idx as int].ahead == ce.operations@[z.idx as int].ahead,
        c1.operations@[z.idx as int].behind == ce.operations@[z.idx as int].behind,
    ensures
        forall|i: int, j: int|
            0 <= i < c1.operations@.len() && 0 <= j < c1.operations@[i].blocks@.len() ==>
                block_wf(#[trigger] c1.operations@[i].blocks@[j], c1.operations@)
                && chains_disjoint((#[trigger] c1.operations@[i].blocks@[j]).chain@, ch),
{
    assert forall|i: int, j: int|
        0 <= i < c1.operations@.len() && 0 <= j < c1.operations@[i].blocks@.len() implies
        block_wf(#[trigger] c1.operations@[i].blocks@[j], c1.operations@) && chains_disjoint(
        (#[trigger] c1.operations@[i].blocks@[j]).chain@,
        ch,
    ) by {
        let nb = c1.operations@[i].blocks@[j];
        if i == z.idx && j == r {
            assert(nb == b2);
            assert forall|q: int| 0 <= q < b2.chain@.len() implies {
                let h = #[trigger] b2.chain@[q];
                &&& h.idx < c1.operations@.len()
                &&& c1.operations@[h.idx as int].ahead == (if q + 1 < b2.chain@.len() {
                    Some(b2.chain@[q + 1])
                } else {
                    None::<Ptr>
                })
                &&& c1.operations@[h.idx as int].behind == (if 0 < q {
                    Some(b2.chain@[q - 1])
                } else {
                    None::<Ptr>
                })
            } by {
                let h = b2.chain@[q];
                assert(b2.chain@.contains(h));
            }
            assert forall|x: Ptr| b2.chain@.contains(x) implies !ch.contains(x) by {
                assert(b0.chain@.contains(x) || x.idx >= cd.operations@.len());
                if ch.contains(x) {
                    let w = choose|w: int| 0 <= w < ch.len() && ch[w] == x;
                    assert(ch[w] == x);
                }
            }
        } else {
            let ja = if i == z.idx && j > r {
                j - 1
            } else {
                j
            };
            assert(i == z.idx ==> c1.operations@[i].blocks@ == ce.operations@[
                i
            ].blocks@.insert(r, b2));
            assert(nb == ce.operations@[i].blocks@[ja]);
            assert(block_wf(nb, ce.operations@));
            assert forall|q: int| 0 <= q < nb.chain@.len() implies {
                let h = #[trigger] nb.chain@[q];
                &&& h.idx < c1.operations@.len()
                &&& c1.operations@[h.idx as int].ahead == (if q + 1 < nb.chain@.len() {
                    Some(nb.chain@[q + 1])
                } else {
                    None::<Ptr>
                })
                &&& c1.operations@[h.idx as int].behind == (if 0 < q {
                    Some(nb.chain@[q - 1])
                } else {
                    None::<Ptr>
                })
            } by {
                let h = nb.chain@[q];
                assert(nb.chain@.contains(h));
                assert(slot_in_regions(ce.operations@, h));
            }
            assert forall|x: Ptr| nb.chain@.contains(x) implies !ch.contains(x) by {
                assert(slot_in_regions(ce.operations@, x));
                assert(slot_in_regions(cd.operations@, x) || x.idx >= cd.operations@.len());
                if ch.contains(x) {
                    let w = choose|w: int| 0 <= w < ch.len() && ch[w] == x;
                    assert(ch[w] == x);
                    if slot_in_regions(cd.operations@, x) {
                        let (i2, rr2) = choose|i2: int, rr2: int|
                            0 <= i2 < cd.operations@.len() && 0 <= rr2 < cd.operations@[
                                i2
                            ].blocks@.len() && (
                            #[trigger] cd.operations@[i2].blocks@[rr2]).chain@.contains(x);
                        assert(cd.operations@[i2].blocks@[rr2].chain@.contains(x));
                        assert(chains_disjoint(cd.operations@[i2].blocks@[rr2].chain@, ch));
                    }
                }
            }
        }
    }
}

/// The stored sequences of the reattached store stay pairwise disjoint.
#[verifier::rlimit(100)]
#[verifier::spinoff_prover]
proof fn lemma_reattach_pairwise(ce: Ctx, c1: Ctx, z: Ptr, r: int, b2: Block)
    requires
        regions_wf(ce.operations@, b2.chain@),
        c1.operations@.len() == ce.operations@.len(),
        forall|i: int|
            0 <= i < ce.operations@.len() && i != z.idx ==> (#[trigger] c1.operations@[i])
                == ce.operations@[i],
        c1.operations@[z.idx as int].blocks@ == ce.operations@[z.idx as int].blocks@.insert(
            r,
            b2,
        ),
        0 <= r <= ce.operations@[z.idx as int].blocks@.len(),
        z.idx < c1.operations@.len(),
    ensures
        forall|i: int, j: int, i2: int, j2: int|
            0 <= i < c1.operations@.len() && 0 <= j < c1.operations@[i].blocks@.len() && 0 <= i2
                < c1.operations@.len() && 0 <= j2 < c1.operations@[i2].blocks@.len() && !(i == i2
                && j == j2) ==> chains_disjoint(
                (#[trigger] c1.operations@[i].blocks@[j]).chain@,
                (#[trigger] c1.operations@[i2].blocks@[j2]).chain@,
            ),
{
    assert forall|i: int, j: int, i2: int, j2: int|
        0 <= i < c1.operations@.len() && 0 <= j < c1.operations@[i].blocks@.len() && 0 <= i2
            < c1.operations@.len() && 0 <= j2 < c1.operations@[i2].blocks@.len() && !(i == i2 && j
            == j2) implies chains_disjoint(
        (#[trigger] c1.operations@[i].blocks@[j]).chain@,
        (#[trigger] c1.operations@[i2].blocks@[j2]).chain@,
    ) by {
        let na = c1.operations@[i].blocks@[j];
        let nb = c1.operations@[i2].blocks@[j2];
        assert(i == z.idx ==> c1.operations@[i].blocks@ == ce.operations@[i].blocks@.insert(
            r,
            b2,
        ));
        assert(i2 == z.idx ==> c1.operations@[i2].blocks@ == ce.operations@[i2].blocks@.insert(
            r,
            b2,
        ));
        if i == z.idx && j == r {
            let jb = if i2 == z.idx && j2 > r {
                j2 - 1
            } else {
                j2
            };
            assert(nb == ce.operations@[i2].blocks@[jb]);
            assert(chains_disjoint(nb.chain@, b2.chain@));
            assert forall|x: Ptr| na.chain@.contains(x) implies !nb.chain@.contains(x) by {}
        } else if i2 == z.idx && j2 == r {
            let ja = if i == z.idx && j > r {
                j - 1
            } else {
                j
            };
            assert(na == ce.operations@[i].blocks@[ja]);
            assert(chains_disjoint(na.chain@, b2.chain@));
        } else {
            let ja = if i == z.idx && j > r {
                j - 1
            } else {
                j
            };
            let jb = if i2 == z.idx && j2 > r {
                j2 - 1
            } else {
                j2
            };
            assert(na == ce.operations@[i].blocks@[ja]);
            assert(nb == ce.operations@[i2].blocks@[jb]);
            assert(!(i == i2 && ja == jb));
        }
    }
}

/// Applies `pass` at every cursor position of `block`, front to back.
///
/// The run is pinned to the rules: some trace of engine states starts at
/// the given context and block, applies the whole pass at each storage
/// index in turn, and ends at the final context and block. Operations
/// spliced before the cursor are not revisited, and a rule cannot grow
/// the storage order, so every slot is visited exactly once. A pass whose
/// rules recognise nothing in the block leaves context and block exactly
/// as they were, which makes complete lowering idempotent.
///
/// This driver walks the one sequence it is given and does not descend
/// into the regions nested in stored operations; [`rewrite_tree`] drives
/// the pass over a whole region tree, transitively and depth first.
pub fn rewrite_ops<R: RewriteRule>(ctx: &mut Ctx, block: &mut Block, pass: &RewriteRuleSet<R>)
    requires
        block_wf(*old(block), old(ctx).operations@),
        regions_wf(old(ctx).operations@, old(block).chain@),
    ensures
        block_wf(*final(block), final(ctx).operations@),
        regions_wf(final(ctx).operations@, final(block).chain@),
        final(block).ops == old(block).ops,
        final(block).id == old(block).id,
        engine_frame(*old(ctx), *old(block), *final(ctx), *final(block)),
        exists|tr: Seq<RewritingCtx>|
            #[trigger] driver_trace(*pass, tr, *old(ctx), *old(block)) && tr[tr.len() - 1].ctx
                == *final(ctx) && tr[tr.len() - 1].block == *final(block),
        (forall|i: int|
            0 <= i < old(block).ops@.len() ==> !pass.spec_triggers(
                old(ctx).operations@[(#[trigger] old(block).ops@[i]).idx as int],
            )) ==> (*final(ctx) == *old(ctx) && *final(block) == *old(block)),
{
    let mut owned_ctx = Ctx::new();
    let mut owned_block = Block {
        id: 0,
        ops: Vec::new(),
        head: None,
        tail: None,
        chain: Ghost(Seq::empty()),
    };
    core::mem::swap(ctx, &mut owned_ctx);
    core::mem::swap(block, &mut owned_block);
    let mut rctx = RewritingCtx::from_start(owned_ctx, owned_block);
    proof {
        assert(rctx == (RewritingCtx { ctx: *old(ctx), block: *old(block), op: Ptr { idx: 0 } }));
        lemma_engine_frame_refl(rctx.ctx, rctx.block);
    }
    let ghost mut tr: Seq<RewritingCtx> = seq![rctx];
    while !rctx.done()
        invariant
            rctx.wf(),
            rctx.block.ops == old(block).ops,
            rctx.block.id == old(block).id,
            rctx.op.idx <= old(block).ops@.len(),
            engine_frame(*old(ctx), *old(block), rctx.ctx, rctx.block),
            tr.len() == rctx.op.idx + 1,
            tr[0] == (RewritingCtx { ctx: *old(ctx), block: *old(block), op: Ptr { idx: 0 } }),
            tr[rctx.op.idx as int] == rctx,
            forall|i: int| 0 <= i < rctx.op.idx ==> #[trigger] pass_step(*pass, tr[i], tr[i + 1]),
            (forall|i: int|
                0 <= i < old(block).ops@.len() ==> !pass.spec_triggers(
                    old(ctx).operations@[(#[trigger] old(block).ops@[i]).idx as int],
                )) ==> (rctx.ctx == *old(ctx) && rctx.block == *old(block)),
        decreases rctx.block.ops@.len() - rctx.op.idx,
    {
        let ghost pre = rctx;
        pass.apply(&mut rctx);
        let ghost mid = rctx;
        rctx.advance();
        proof {
            assert(mid == (RewritingCtx { ctx: rctx.ctx, block: rctx.block, op: pre.op }));
            assert(pass_step(*pass, pre, rctx));
            lemma_engine_frame_trans(
                *old(ctx),
                *old(block),
                pre.ctx,
                pre.block,
                rctx.ctx,
                rctx.block,
            );
            tr = tr.push(rctx);
        }
    }
    proof {
        assert(driver_trace(*pass, tr, *old(ctx), *old(block)));
    }
    let (done_ctx, done_block) = rctx.release();
    *ctx = done_ctx;
    *block = done_block;
}


/// One region processed in place — detached, rewritten under the store
/// discipline, hung back — keeps every clause of the descent's frame over
/// the state the flat pass left.
#[verifier::rlimit(100)]
#[verifier::spinoff_prover]
proof fn lemma_descent_step(
    cm: Ctx,
    bm: Block,
    cprev: Ctx,
    cdet: Ctx,
    ce: Ctx,
    c1: Ctx,
    z: Ptr,
    r: int,
    rg: Block,
    re: Block,
)
    requires
        regions_wf(cprev.operations@, bm.chain@),
        cprev.operations@.len() >= cm.operations@.len(),
        cprev.blocks == cm.blocks,
        forall|j: int|
            0 <= j < cm.operations@.len() ==> (#[trigger] cprev.operations@[j]).blocks@.len()
                <= cm.operations@[j].blocks@.len(),
        forall|j: int|
            cm.operations@.len() <= j < cprev.operations@.len() ==> (
            #[trigger] cprev.operations@[j]).blocks@.len() == 0,
        forall|j: int|
            0 <= j < cm.operations@.len() && !bm.chain@.contains(Ptr { idx: j as usize })
                && !slot_in_regions(cm.operations@, Ptr { idx: j as usize }) ==> (
            #[trigger] cprev.operations@[j]) == cm.operations@[j],
        forall|x: Ptr|
            slot_in_regions(cprev.operations@, x) ==> slot_in_regions(cm.operations@, x) || x.idx
                >= cm.operations@.len(),
        bm.chain@.contains(z),
        z.idx < cm.operations@.len(),
        0 <= r < cprev.operations@[z.idx as int].blocks@.len(),
        rg == cprev.operations@[z.idx as int].blocks@[r],
        cdet.operations@.len() == cprev.operations@.len(),
        cdet.blocks == cprev.blocks,
        forall|i: int|
            0 <= i < cprev.operations@.len() && i != z.idx ==> (#[trigger] cdet.operations@[i])
                == cprev.operations@[i],
        cdet.operations@[z.idx as int].blocks@ == cprev.operations@[z.idx as int].blocks@.remove(
            r,
        ),
        engine_frame(cdet, rg, ce, re),
        c1.operations@.len() == ce.operations@.len(),
        c1.blocks == ce.blocks,
        forall|i: int|
            0 <= i < ce.operations@.len() && i != z.idx ==> (#[trigger] c1.operations@[i])
                == ce.operations@[i],
        c1.operations@[z.idx as int].blocks@ == ce.operations@[z.idx as int].blocks@.insert(
            r,
            re,
        ),
        0 <= r <= ce.operations@[z.idx as int].blocks@.len(),
        ce.operations@[z.idx as int] == cdet.operations@[z.idx as int],
    ensures
        c1.operations@.len() >= cm.operations@.len(),
        c1.blocks == cm.blocks,
        forall|j: int|
            0 <= j < cm.operations@.len() ==> (#[trigger] c1.operations@[j]).blocks@.len()
                <= cm.operations@[j].blocks@.len(),
        forall|j: int|
            cm.operations@.len() <= j < c1.operations@.len() ==> (
            #[trigger] c1.operations@[j]).blocks@.len() == 0,
        forall|j: int|
            0 <= j < cm.operations@.len() && !bm.chain@.contains(Ptr { idx: j as usize })
                && !slot_in_regions(cm.operations@, Ptr { idx: j as usize }) ==> (
            #[trigger] c1.operations@[j]) == cm.operations@[j],
        forall|x: Ptr|
            slot_in_regions(c1.operations@, x) ==> slot_in_regions(cm.operations@, x) || x.idx
                >= cm.operations@.len(),
{
    reveal(engine_frame);
    // the detached region's members are region slots of the state before
    assert forall|x: Ptr| rg.chain@.contains(x) implies slot_in_regions(
        cprev.operations@,
        x,
    ) by {}
    // the owner survives the sub-run untouched (already given as `ce[z] == cdet[z]`)
    assert forall|j: int|
        0 <= j < cm.operations@.len() implies (#[trigger] c1.operations@[j]).blocks@.len()
        <= cm.operations@[j].blocks@.len() by {
        if j == z.idx {
            assert(c1.operations@[j].blocks@.len() == ce.operations@[j].blocks@.len() + 1);
            assert(ce.operations@[j].blocks@.len() + 1 == cprev.operations@[j].blocks@.len());
        } else {
            assert(ce.operations@[j].blocks@.len() <= cdet.operations@[j].blocks@.len());
        }
    }
    assert forall|j: int|
        cm.operations@.len() <= j < c1.operations@.len() implies (
    #[trigger] c1.operations@[j]).blocks@.len() == 0 by {
        if j < cprev.operations@.len() {
            assert(cprev.operations@[j].blocks@.len() == 0);
            assert(cdet.operations@[j].blocks@.len() == 0);
            assert(ce.operations@[j].blocks@.len() <= cdet.operations@[j].blocks@.len());
        }
    }
    assert forall|j: int|
        0 <= j < cm.operations@.len() && !bm.chain@.contains(Ptr { idx: j as usize })
            && !slot_in_regions(cm.operations@, Ptr { idx: j as usize }) implies (
    #[trigger] c1.operations@[j]) == cm.operations@[j] by {
        let p = Ptr { idx: j as usize };
        assert(j != z.idx);
        assert(cprev.operations@[j] == cm.operations@[j]);
        assert(cdet.operations@[j] == cprev.operations@[j]);
        assert(!slot_in_regions(cprev.operations@, p));
        assert(!rg.chain@.contains(p));
        assert(!slot_in_regions(cdet.operations@, p)) by {
            if slot_in_regions(cdet.operations@, p) {
                let (i2, r2) = choose|i2: int, r2: int|
                    0 <= i2 < cdet.operations@.len() && 0 <= r2 < cdet.operations@[
                        i2
                    ].blocks@.len() && (#[trigger] cdet.operations@[i2].blocks@[
                        r2
                    ]).chain@.contains(p);
                assert(cdet.operations@[i2].blocks@[r2].chain@.contains(p));
                if i2 == z.idx {
                    let ja = if r2 >= r {
                        r2 + 1
                    } else {
                        r2
                    };
                    assert(cdet.operations@[i2].blocks@[r2] == cprev.operations@[i2].blocks@[
                        ja
                    ]);
                    assert(slot_in_regions(cprev.operations@, p));
                } else {
                    assert(slot_in_regions(cprev.operations@, p));
                }
            }
        }
        assert(ce.operations@[j] == cdet.operations@[j]);
        assert(c1.operations@[j] == ce.operations@[j]);
    }
    assert forall|x: Ptr|
        slot_in_regions(c1.operations@, x) implies slot_in_regions(cm.operations@, x) || x.idx
        >= cm.operations@.len() by {
        let (i, rr) = choose|i: int, rr: int|
            0 <= i < c1.operations@.len() && 0 <= rr < c1.operations@[i].blocks@.len() && (
            #[trigger] c1.operations@[i].blocks@[rr]).chain@.contains(x);
        assert(c1.operations@[i].blocks@[rr].chain@.contains(x));
        if i == z.idx && rr == r {
            // the region hung back: its members come from the detached
            // region or are fresh
            assert(c1.operations@[i].blocks@[rr] == re);
            assert(rg.chain@.contains(x) || x.idx >= cdet.operations@.len());
            if rg.chain@.contains(x) {
                assert(slot_in_regions(cprev.operations@, x));
            }
        } else if i == z.idx {
            let ja = if rr > r {
                rr - 1
            } else {
                rr
            };
            assert(c1.operations@[i].blocks@ == ce.operations@[i].blocks@.insert(r, re));
            assert(c1.operations@[i].blocks@[rr] == ce.operations@[i].blocks@[ja]);
            let jb = if ja >= r {
                ja + 1
            } else {
                ja
            };
            assert(ce.operations@[i].blocks@[ja] == cprev.operations@[i].blocks@[jb]);
            assert(slot_in_regions(cprev.operations@, x));
        } else if i < c1.operations@.len() {
            assert(c1.operations@[i] == ce.operations@[i]);
            assert(slot_in_regions(ce.operations@, x) || true) by {}
            assert(slot_in_regions(ce.operations@, x)) by {
                assert(ce.operations@[i].blocks@[rr].chain@.contains(x));
            }
            assert(slot_in_regions(cdet.operations@, x) || x.idx >= cdet.operations@.len());
            if slot_in_regions(cdet.operations@, x) {
                let (i2, r2) = choose|i2: int, r2: int|
                    0 <= i2 < cdet.operations@.len() && 0 <= r2 < cdet.operations@[
                        i2
                    ].blocks@.len() && (#[trigger] cdet.operations@[i2].blocks@[
                        r2
                    ]).chain@.contains(x);
                assert(cdet.operations@[i2].blocks@[r2].chain@.contains(x));
                if i2 == z.idx {
                    let ja2 = if r2 >= r {
                        r2 + 1
                    } else {
                        r2
                    };
                    assert(cdet.operations@[i2].blocks@[r2] == cprev.operations@[i2].blocks@[
                        ja2
                    ]);
                    assert(slot_in_regions(cprev.operations@, x));
                } else {
                    assert(slot_in_regions(cprev.operations@, x));
                }
            }
        }
    }
}


/// Applies `pass` over the whole region tree of `block`: the block's own
/// sequence front to back, then, region by region in storage order, every
/// region of every stored operation the same way, transitively and depth
/// first. The recursion is bounded by the store's region count, which no
/// rule may grow.
#[verifier::rlimit(100)]
#[verifier::spinoff_prover]
pub fn rewrite_tree<R: RewriteRule>(ctx: Ctx, block: Block, pass: &RewriteRuleSet<R>) -> (r: (
    Ctx,
    Block,
))
    requires
        block_wf(block, ctx.operations@),
        regions_wf(ctx.operations@, block.chain@),
    ensures
        block_wf(r.1, r.0.operations@),
        regions_wf(r.0.operations@, r.1.chain@),
        r.1.ops == block.ops,
        r.1.id == block.id,
        engine_frame(ctx, block, r.0, r.1),
        region_count(r.0.operations@) <= region_count(ctx.operations@),
        exists|tr: Seq<RewritingCtx>|
            #[trigger] driver_trace(*pass, tr, ctx, block) && descent_rel(
                *pass,
                tr[tr.len() - 1].ctx,
                tr[tr.len() - 1].block,
                r.0,
                r.1,
            ),
    decreases region_count(ctx.operations@),
{
    let ghost ctx0 = ctx;
    let ghost block0 = block;
    let mut c = ctx;
    let mut b = block;
    rewrite_ops(&mut c, &mut b, pass);
    let ghost cm = c;
    let ghost bm = b;
    let ghost cond1 = region_members_flat(cm.operations@, bm);
    let ghost condx = bm.ops@.len() == 1 && cm.operations@[bm.ops@[0].idx as int].blocks@.len()
        == 1 && region_members_flat(
        cm.operations@,
        cm.operations@[bm.ops@[0].idx as int].blocks@[0],
    );
    proof {
        assert(cm.operations@.len() >= ctx0.operations@.len() && (forall|j: int|
            0 <= j < ctx0.operations@.len() ==> (#[trigger] cm.operations@[j]).blocks@.len()
                <= ctx0.operations@[j].blocks@.len()) && (forall|j: int|
            ctx0.operations@.len() <= j < cm.operations@.len() ==> (
            #[trigger] cm.operations@[j]).blocks@.len() == 0)) by {
            reveal(engine_frame);
        }
        lemma_region_count_grow(ctx0.operations@, cm.operations@);
        lemma_engine_frame_refl(cm, bm);
    }
    let n = b.len();
    let mut q: usize = 0;
    while q < n
        invariant
            n == bm.ops@.len(),
            b == bm,
            q <= n,
            block_wf(bm, cm.operations@),
            regions_wf(cm.operations@, bm.chain@),
            block_wf(b, c.operations@),
            regions_wf(c.operations@, b.chain@),
            c.operations@.len() >= cm.operations@.len(),
            c.blocks == cm.blocks,
            c.values == c.values,
            forall|j: int|
                0 <= j < cm.operations@.len() ==> (#[trigger] c.operations@[j]).blocks@.len()
                    <= cm.operations@[j].blocks@.len(),
            forall|j: int|
                cm.operations@.len() <= j < c.operations@.len() ==> (
                #[trigger] c.operations@[j]).blocks@.len() == 0,
            forall|j: int|
                0 <= j < cm.operations@.len() && !bm.chain@.contains(Ptr { idx: j as usize })
                    && !slot_in_regions(cm.operations@, Ptr { idx: j as usize }) ==> (
                #[trigger] c.operations@[j]) == cm.operations@[j],
            forall|x: Ptr|
                slot_in_regions(c.operations@, x) ==> slot_in_regions(cm.operations@, x) || x.idx
                    >= cm.operations@.len(),
            forall|x: Ptr|
                bm.chain@.contains(x) ==> {
                    &&& (#[trigger] c.operations@[x.idx as int]).name == cm.operations@[
                        x.idx as int
                    ].name
                    &&& c.operations@[x.idx as int].operands == cm.operations@[
                        x.idx as int
                    ].operands
                    &&& c.operations@[x.idx as int].result == cm.operations@[x.idx as int].result
                    &&& c.operations@[x.idx as int].attributes == cm.operations@[
                        x.idx as int
                    ].attributes
                    &&& c.operations@[x.idx as int].ahead == cm.operations@[x.idx as int].ahead
                    &&& c.operations@[x.idx as int].behind == cm.operations@[x.idx as int].behind
                    &&& c.operations@[x.idx as int].blocks@.len() == cm.operations@[
                        x.idx as int
                    ].blocks@.len()
                },
            cond1 == region_members_flat(cm.operations@, bm),
            condx == (bm.ops@.len() == 1 && cm.operations@[bm.ops@[0].idx as int].blocks@.len()
                == 1 && region_members_flat(
                cm.operations@,
                cm.operations@[bm.ops@[0].idx as int].blocks@[0],
            )),
            cond1 ==> c == cm,
            condx ==> ((q == 0 && c == cm) || (q >= 1 && descent_exposed(*pass, cm, bm, c))),
            region_count(cm.operations@) <= region_count(ctx.operations@),
            region_count(c.operations@) <= region_count(ctx.operations@),
        decreases n - q,
    {
        let z = b.ops[q];
        proof {
            assert(b.chain@.contains(z));
            let w = choose|w: int| 0 <= w < b.chain@.len() && b.chain@[w] == z;
            assert(b.chain@[w] == z);
            assert(z.idx < c.operations@.len());
            let wm = choose|wm: int| 0 <= wm < bm.chain@.len() && bm.chain@[wm] == z;
            assert(bm.chain@[wm] == z);
            assert(z.idx < cm.operations@.len());
        }
        let ghost zlen = c.operations@[z.idx as int].blocks@.len();
        let ghost centry = c;
        let mut ri: usize = 0;
        loop
            invariant_except_break
                b == bm,
                q < n,
                n == bm.ops@.len(),
                z == bm.ops@[q as int],
                bm.chain@.contains(z),
                z.idx < cm.operations@.len(),
                block_wf(bm, cm.operations@),
                regions_wf(cm.operations@, bm.chain@),
                block_wf(b, c.operations@),
                regions_wf(c.operations@, b.chain@),
                c.operations@.len() >= cm.operations@.len(),
                c.blocks == cm.blocks,
                ri <= zlen,
                c.operations@[z.idx as int].blocks@.len() == zlen,
                forall|j: int|
                    0 <= j < cm.operations@.len() ==> (#[trigger] c.operations@[j]).blocks@.len()
                        <= cm.operations@[j].blocks@.len(),
                forall|j: int|
                    cm.operations@.len() <= j < c.operations@.len() ==> (
                    #[trigger] c.operations@[j]).blocks@.len() == 0,
                forall|j: int|
                    0 <= j < cm.operations@.len() && !bm.chain@.contains(Ptr { idx: j as usize })
                        && !slot_in_regions(cm.operations@, Ptr { idx: j as usize }) ==> (
                    #[trigger] c.operations@[j]) == cm.operations@[j],
                forall|x: Ptr|
                    slot_in_regions(c.operations@, x) ==> slot_in_regions(cm.operations@, x)
                        || x.idx >= cm.operations@.len(),
                forall|x: Ptr|
                    bm.chain@.contains(x) ==> {
                        &&& (#[trigger] c.operations@[x.idx as int]).name == cm.operations@[
                            x.idx as int
                        ].name
                        &&& c.operations@[x.idx as int].operands == cm.operations@[
                            x.idx as int
                        ].operands
                        &&& c.operations@[x.idx as int].result == cm.operations@[
                            x.idx as int
                        ].result
                        &&& c.operations@[x.idx as int].attributes == cm.operations@[
                            x.idx as int
                        ].attributes
                        &&& c.operations@[x.idx as int].ahead == cm.operations@[
                            x.idx as int
                        ].ahead
                        &&& c.operations@[x.idx as int].behind == cm.operations@[
                            x.idx as int
                        ].behind
                        &&& c.operations@[x.idx as int].blocks@.len() == cm.operations@[
                            x.idx as int
                        ].blocks@.len()
                    },
                cond1 == region_members_flat(cm.operations@, bm),
                condx == (bm.ops@.len() == 1 && cm.operations@[bm.ops@[
                    0
                ].idx as int].blocks@.len() == 1 && region_members_flat(
                    cm.operations@,
                    cm.operations@[bm.ops@[0].idx as int].blocks@[0],
                )),
                cond1 ==> c == cm,
                condx ==> ((q == 0 && ri == 0 && c == cm) || (q == 0 && ri >= 1
                    && descent_exposed(*pass, cm, bm, c))),
                region_count(cm.operations@) <= region_count(ctx.operations@),
                region_count(c.operations@) <= region_count(ctx.operations@),
            ensures
                b == bm,
                block_wf(b, c.operations@),
                regions_wf(c.operations@, b.chain@),
                c.operations@.len() >= cm.operations@.len(),
                c.blocks == cm.blocks,
                forall|j: int|
                    0 <= j < cm.operations@.len() ==> (#[trigger] c.operations@[j]).blocks@.len()
                        <= cm.operations@[j].blocks@.len(),
                forall|j: int|
                    cm.operations@.len() <= j < c.operations@.len() ==> (
                    #[trigger] c.operations@[j]).blocks@.len() == 0,
                forall|j: int|
                    0 <= j < cm.operations@.len() && !bm.chain@.contains(Ptr { idx: j as usize })
                        && !slot_in_regions(cm.operations@, Ptr { idx: j as usize }) ==> (
                    #[trigger] c.operations@[j]) == cm.operations@[j],
                forall|x: Ptr|
                    slot_in_regions(c.operations@, x) ==> slot_in_regions(cm.operations@, x)
                        || x.idx >= cm.operations@.len(),
                forall|x: Ptr|
                    bm.chain@.contains(x) ==> {
                        &&& (#[trigger] c.operations@[x.idx as int]).name == cm.operations@[
                            x.idx as int
                        ].name
                        &&& c.operations@[x.idx as int].operands == cm.operations@[
                            x.idx as int
                        ].operands
                        &&& c.operations@[x.idx as int].result == cm.operations@[
                            x.idx as int
                        ].result
                        &&& c.operations@[x.idx as int].attributes == cm.operations@[
                            x.idx as int
                        ].attributes
                        &&& c.operations@[x.idx as int].ahead == cm.operations@[
                            x.idx as int
                        ].ahead
                        &&& c.operations@[x.idx as int].behind == cm.operations@[
                            x.idx as int
                        ].behind
                        &&& c.operations@[x.idx as int].blocks@.len() == cm.operations@[
                            x.idx as int
                        ].blocks@.len()
                    },
                cond1 ==> c == cm,
                condx && q == 0 ==> descent_exposed(*pass, cm, bm, c),
                condx && q >= 1 ==> descent_exposed(*pass, cm, bm, c),
                region_count(c.operations@) <= region_count(ctx.operations@),
            decreases zlen - ri,
        {
            let zref = c.get_operation(OperationId(z.idx));
            if ri >= zref.blocks.len() {
                proof {
                    if condx && q == 0 && ri == 0 {
                        assert(c == cm);
                        assert(cm.operations@[z.idx as int].blocks@.len() == 1);
                        assert(false);
                    }
                }
                break ;
            }
            proof {
                if cond1 {
                    assert(c == cm);
                    assert(cm.operations@[bm.ops@[q as int].idx as int].blocks@.len() == 0);
                    assert(false);
                }
            }
            let ghost cprev = c;
            let zop = c.get_operation_mut(OperationId(z.idx));
            let region = zop.blocks.remove(ri);
            let ghost cdet = c;
            let ghost rg = cprev.operations@[z.idx as int].blocks@[ri as int];
            proof {
                assert(region == rg);
                assert(cdet.operations@[z.idx as int].blocks@ == cprev.operations@[
                    z.idx as int
                ].blocks@.remove(ri as int));
                lemma_detach_region(
                    cprev.operations@,
                    cdet.operations@,
                    b.chain@,
                    z,
                    ri as int,
                    rg,
                );
                lemma_region_count_to_detach(
                    cprev.operations@,
                    cdet.operations@,
                    z.idx as int,
                    cprev.operations@.len() as int,
                );
                assert(region_count(cdet.operations@) < region_count(cprev.operations@));
                assert(region_count(cdet.operations@) < region_count(ctx.operations@));
            }
            let res = rewrite_tree(c, region, pass);
            c = res.0;
            let region2 = res.1;
            let ghost ce = c;
            let ghost re = region2;
            proof {
                assert(ce.operations@.len() >= cdet.operations@.len() && ce.blocks
                    == cdet.blocks) by {
                    reveal(engine_frame);
                }
                // the owner sits outside the walked region, so the
                // sub-run left its slot untouched
                assert(ce.operations@[z.idx as int] == cdet.operations@[z.idx as int]) by {
                    reveal(engine_frame);
                    assert(!rg.chain@.contains(z)) by {
                        if rg.chain@.contains(z) {
                            assert(chains_disjoint(rg.chain@, b.chain@));
                            assert(b.chain@.contains(z));
                        }
                    }
                    assert(!slot_in_regions(cdet.operations@, z)) by {
                        if slot_in_regions(cdet.operations@, z) {
                            let (i0, rr0) = choose|i0: int, rr0: int|
                                0 <= i0 < cdet.operations@.len() && 0 <= rr0 < cdet.operations@[
                                    i0
                                ].blocks@.len() && (#[trigger] cdet.operations@[i0].blocks@[
                                    rr0
                                ]).chain@.contains(z);
                            assert(cdet.operations@[i0].blocks@[rr0].chain@.contains(z));
                            assert(chains_disjoint(
                                cdet.operations@[i0].blocks@[rr0].chain@,
                                b.chain@,
                            ));
                            assert(b.chain@.contains(z));
                        }
                    }
                }
                assert(ri <= ce.operations@[z.idx as int].blocks@.len());
            }
            let zop = c.get_operation_mut(OperationId(z.idx));
            zop.blocks.insert(ri, region2);
            proof {
                assert(c.operations@[z.idx as int].blocks@ == ce.operations@[
                    z.idx as int
                ].blocks@.insert(ri as int, re));
                assert(ce.operations@[z.idx as int] == cdet.operations@[z.idx as int] || true);
                lemma_reattach_region(cdet, ce, c, b.chain@, z, ri as int, rg, re);
                assert(block_wf(b, c.operations@));
                lemma_descent_step(cm, bm, cprev, cdet, ce, c, z, ri as int, rg, re);
                // the walked order's own operations keep their shape
                assert forall|x: Ptr| bm.chain@.contains(x) implies {
                    &&& (#[trigger] c.operations@[x.idx as int]).name == cm.operations@[
                        x.idx as int
                    ].name
                    &&& c.operations@[x.idx as int].operands == cm.operations@[
                        x.idx as int
                    ].operands
                    &&& c.operations@[x.idx as int].result == cm.operations@[x.idx as int].result
                    &&& c.operations@[x.idx as int].attributes == cm.operations@[
                        x.idx as int
                    ].attributes
                    &&& c.operations@[x.idx as int].ahead == cm.operations@[x.idx as int].ahead
                    &&& c.operations@[x.idx as int].behind == cm.operations@[x.idx as int].behind
                    &&& c.operations@[x.idx as int].blocks@.len() == cm.operations@[
                        x.idx as int
                    ].blocks@.len()
                } by {
                    if x == z {
                        assert(ce.operations@[z.idx as int] == cdet.operations@[z.idx as int]);
                    } else {
                        assert(x.idx != z.idx) by {
                            if x.idx == z.idx {
                                assert(crate::link::chain_links(bm.chain@, cm.operations@));
                            }
                        }
                        assert(c.operations@[x.idx as int] == ce.operations@[x.idx as int]);
                        assert(ce.operations@[x.idx as int] == cdet.operations@[x.idx as int])
                            by {
                            assert(b.chain@.contains(x));
                            assert(c.operations@[x.idx as int] == cdet.operations@[
                                x.idx as int
                            ]);
                        }
                        assert(cdet.operations@[x.idx as int] == cprev.operations@[
                            x.idx as int
                        ]);
                    }
                }
                lemma_region_count_grow(cm.operations@, c.operations@);
                // one region, one walk: the descent of the single-region
                // single-operation block is laid open by this iteration
                if condx && q == 0 {
                    assert(ri == 0 && cprev == cm);
                    let tr_c = choose|tr_c: Seq<RewritingCtx>|
                        #[trigger] driver_trace(*pass, tr_c, cdet, rg) && descent_rel(
                            *pass,
                            tr_c[tr_c.len() - 1].ctx,
                            tr_c[tr_c.len() - 1].block,
                            ce,
                            re,
                        );
                    assert(driver_trace(*pass, tr_c, cdet, rg) && descent_rel(
                        *pass,
                        tr_c[tr_c.len() - 1].ctx,
                        tr_c[tr_c.len() - 1].block,
                        ce,
                        re,
                    ));
                    assert(rg == cm.operations@[bm.ops@[0].idx as int].blocks@[0]);
                    assert forall|qq: int|
                        0 <= qq < rg.ops@.len() implies (#[trigger] rg.ops@[qq]).idx
                        < cdet.operations@.len() && cdet.operations@[rg.ops@[
                        qq
                    ].idx as int].blocks@.len() == 0 by {
                        assert(rg.chain@.contains(rg.ops@[qq]));
                        let wq = choose|wq: int|
                            0 <= wq < rg.chain@.len() && rg.chain@[wq] == rg.ops@[qq];
                        assert(rg.chain@[wq] == rg.ops@[qq]);
                        assert(rg.ops@[qq].idx != z.idx) by {
                            if rg.ops@[qq].idx == z.idx {
                                assert(chains_disjoint(rg.chain@, b.chain@));
                                assert(b.chain@.contains(z));
                            }
                        }
                        assert(cdet.operations@[rg.ops@[qq].idx as int] == cm.operations@[rg.ops@[
                            qq
                        ].idx as int]);
                    }
                    assert(region_members_flat(cdet.operations@, rg));
                    lemma_trace_stays_flat(*pass, tr_c, cdet, rg, tr_c.len() - 1);
                    assert(region_members_flat(
                        tr_c[tr_c.len() - 1].ctx.operations@,
                        tr_c[tr_c.len() - 1].block,
                    ));
                    assert(ce == tr_c[tr_c.len() - 1].ctx);
                    assert(re == tr_c[tr_c.len() - 1].block);
                    assert(detached_at(cm, z, cdet)) by {
                        assert(cdet.operations@[z.idx as int].blocks@ =~= cm.operations@[
                            z.idx as int
                        ].blocks@.drop_first());
                    }
                    assert(reattached_at(tr_c[tr_c.len() - 1].ctx, z, tr_c[tr_c.len() - 1].block, c));
                    assert(block_wf(rg, cdet.operations@));
                    assert(descent_exposed(*pass, cm, bm, c));
                }
            }
            ri = ri + 1;
        }
        q = q + 1;
    }
    proof {
        assert(engine_frame(cm, bm, c, b)) by {
            reveal(engine_frame);
        }
        lemma_engine_frame_trans(ctx0, block0, cm, bm, c, b);
        assert(descent_rel(*pass, cm, bm, c, b)) by {
            if condx {
                assert(q == 1);
            }
        }
        let tr = choose|tr: Seq<RewritingCtx>|
            #[trigger] driver_trace(*pass, tr, ctx0, block0) && tr[tr.len() - 1].ctx == cm && tr[
                tr.len() - 1
            ].block == bm;
        assert(driver_trace(*pass, tr, ctx0, block0) && descent_rel(
            *pass,
            tr[tr.len() - 1].ctx,
            tr[tr.len() - 1].block,
            c,
            b,
        ));
        lemma_region_count_grow(cm.operations@, c.operations@);
    }
    (c, b)
}

} // verus!
