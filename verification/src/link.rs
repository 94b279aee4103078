//! The sequencer: program order over arena-resident operations, kept as an
//! intrusive doubly-linked chain that never relocates node storage.
//!
//! The chain is modelled by the ghost sequence [`crate::ir::Block::chain`];
//! [`chain_links`] ties the `ahead`/`behind` fields of the member
//! operations to that model, and every mutation here preserves it.

use vstd::prelude::*;

use crate::ctx::{Ctx, OperationId, Ptr};
use crate::ir::{Block, Operation};

verus! {

/// The links of the operations listed in `ch` spell out exactly the order
/// `ch` gives: each member's `ahead` points to its successor in `ch`, each
/// `behind` to its predecessor, and no handle occurs twice.
pub open spec fn chain_links(ch: Seq<Ptr>, ops: Seq<Operation>) -> bool {
    &&& forall|i: int, j: int| 0 <= i < j < ch.len() ==> ch[i] != ch[j]
    &&& forall|i: int|
        0 <= i < ch.len() ==> {
            let p = #[trigger] ch[i];
            &&& p.idx < ops.len()
            &&& ops[p.idx as int].ahead == (if i + 1 < ch.len() {
                Some(ch[i + 1])
            } else {
                None::<Ptr>
            })
            &&& ops[p.idx as int].behind == (if 0 < i {
                Some(ch[i - 1])
            } else {
                None::<Ptr>
            })
        }
}

/// A block is well formed against the operation store when its ghost chain
/// matches the intrusive links, `head` and `tail` frame the chain, and
/// every handle in cursor order is a chain member.
pub open spec fn block_wf(b: Block, ops: Seq<Operation>) -> bool {
    &&& chain_links(b.chain@, ops)
    &&& b.head == (if b.chain@.len() == 0 {
        None::<Ptr>
    } else {
        Some(b.chain@[0])
    })
    &&& b.tail == (if b.chain@.len() == 0 {
        None::<Ptr>
    } else {
        Some(b.chain@[b.chain@.len() - 1])
    })
    &&& forall|i: int| 0 <= i < b.ops@.len() ==> b.chain@.contains(#[trigger] b.ops@[i])
}

/// The position of `p` in `ch`.
pub open spec fn chain_pos(ch: Seq<Ptr>, p: Ptr) -> int {
    ch.index_of(p)
}

/// Intrusive access to an operation's sequence links.
pub trait LinkedNode {
    fn ahead(&self) -> Option<Ptr>;

    fn behind(&self) -> Option<Ptr>;

    fn ahead_mut(&mut self) -> &mut Option<Ptr>;

    fn behind_mut(&mut self) -> &mut Option<Ptr>;
}

impl LinkedNode for Operation {
    /// The successor link.
    fn ahead(&self) -> (r: Option<Ptr>)
        ensures
            r == self.ahead,
    {
        self.ahead
    }

    /// The predecessor link.
    fn behind(&self) -> (r: Option<Ptr>)
        ensures
            r == self.behind,
    {
        self.behind
    }

    /// The successor link, mutably.
    fn ahead_mut(&mut self) -> (r: &mut Option<Ptr>)
        ensures
            *r == old(self).ahead,
            *final(self) == (Operation { ahead: *final(r), ..*old(self) }),
    {
        &mut self.ahead
    }

    /// The predecessor link, mutably.
    fn behind_mut(&mut self) -> (r: &mut Option<Ptr>)
        ensures
            *r == old(self).behind,
            *final(self) == (Operation { behind: *final(r), ..*old(self) }),
    {
        &mut self.behind
    }
}

/// Access to the head and tail handles of an intrusively ordered sequence.
pub trait LinkedList {
    fn head(&self) -> &Option<Ptr>;

    fn tail(&self) -> &Option<Ptr>;

    fn head_mut(&mut self) -> &mut Option<Ptr>;

    fn tail_mut(&mut self) -> &mut Option<Ptr>;
}

impl LinkedList for Block {
    /// The first operation in program order.
    fn head(&self) -> (r: &Option<Ptr>)
        ensures
            *r == self.head,
    {
        &self.head
    }

    /// The last operation in program order.
    fn tail(&self) -> (r: &Option<Ptr>)
        ensures
            *r == self.tail,
    {
        &self.tail
    }

    /// The head handle, mutably.
    fn head_mut(&mut self) -> (r: &mut Option<Ptr>)
        ensures
            *r == old(self).head,
            *final(self) == (Block { head: *final(r), ..*old(self) }),
    {
        &mut self.head
    }

    /// The tail handle, mutably.
    fn tail_mut(&mut self) -> (r: &mut Option<Ptr>)
        ensures
            *r == old(self).tail,
            *final(self) == (Block { tail: *final(r), ..*old(self) }),
    {
        &mut self.tail
    }
}

impl Block {
    /// Allocates `node` and links it as the new tail; if the sequence was
    /// empty, the node also becomes the head. Appending `o1..ok` in order
    /// therefore yields exactly the program order `o1, ..., ok`.
    pub fn append(&mut self, ctx: &mut Ctx, node: Operation) -> (p: Ptr)
        requires
            block_wf(*old(self), old(ctx).operations@),
            node.unlinked(),
        ensures
            block_wf(*final(self), final(ctx).operations@),
            p.idx == old(ctx).operations@.len(),
            final(self).chain@ =~= old(self).chain@.push(p),
            final(self).ops@ =~= old(self).ops@.push(p),
            final(self).id == old(self).id,
            final(self).head == (if old(self).chain@.len() == 0 {
                Some(p)
            } else {
                old(self).head
            }),
            final(self).tail == Some(p),
            final(ctx).blocks == old(ctx).blocks,
            final(ctx).values == old(ctx).values,
            final(ctx).operations@.len() == old(ctx).operations@.len() + 1,
            final(ctx).operations@[p.idx as int] == (Operation {
                behind: old(self).tail,
                ..node
            }),
            forall|j: int|
                0 <= j < old(ctx).operations@.len() ==> (#[trigger] final(ctx).operations@[j])
                    == (if old(self).tail == Some(Ptr { idx: j as usize }) {
                    (Operation { ahead: Some(p), ..old(ctx).operations@[j] })
                } else {
                    old(ctx).operations@[j]
                }),
    {
        let op_id = ctx.alloc_operation(node);
        let node_ptr = Ptr::new(op_id.0);
        match self.tail {
            Some(tail_ptr) => {
                let t = ctx.get_operation_mut(OperationId(tail_ptr.idx));
                t.ahead = Some(node_ptr);
                let n = ctx.get_operation_mut(OperationId(node_ptr.idx));
                n.behind = Some(tail_ptr);
            },
            None => {},
        }
        self.tail = Some(node_ptr);
        if self.head.is_none() {
            self.head = Some(node_ptr);
        }
        self.ops.push(node_ptr);
        proof {
            let och = old(self).chain@;
            self.chain@ = och.push(node_ptr);
            assert forall|i: int| 0 <= i < self.chain@.len() implies {
                let q = #[trigger] self.chain@[i];
                &&& q.idx < ctx.operations@.len()
                &&& ctx.operations@[q.idx as int].ahead == (if i + 1 < self.chain@.len() {
                    Some(self.chain@[i + 1])
                } else {
                    None::<Ptr>
                })
                &&& ctx.operations@[q.idx as int].behind == (if 0 < i {
                    Some(self.chain@[i - 1])
                } else {
                    None::<Ptr>
                })
            } by {
                if i < och.len() {
                    assert(self.chain@[i] == och[i]);
                }
            }
            assert forall|i: int| 0 <= i < self.ops@.len() implies self.chain@.contains(
                #[trigger] self.ops@[i],
            ) by {
                if i < old(self).ops@.len() {
                    let k = choose|k: int|
                        0 <= k < och.len() && och[k] == old(self).ops@[i];
                    assert(self.chain@[k] == old(self).ops@[i]);
                } else {
                    assert(self.chain@[och.len() as int] == node_ptr);
                }
            }
        }
        node_ptr
    }

    /// Allocates `inserted` and splices it immediately before `root` in
    /// program order; all other relative orderings are unchanged. If `root`
    /// was the head, the new node becomes the head.
    ///
    /// The new node joins the chain only, not the cursor order, so a walk
    /// already past this position does not revisit it.
    #[verifier::rlimit(60)]
    pub fn insert_behind(&mut self, ctx: &mut Ctx, root: Ptr, inserted: Operation) -> (p: Ptr)
        requires
            block_wf(*old(self), old(ctx).operations@),
            old(self).chain@.contains(root),
            inserted.unlinked(),
        ensures
            block_wf(*final(self), final(ctx).operations@),
            p.idx == old(ctx).operations@.len(),
            final(self).chain@ =~= old(self).chain@.insert(
                chain_pos(old(self).chain@, root),
                p,
            ),
            final(self).ops == old(self).ops,
            final(self).id == old(self).id,
            final(self).tail == old(self).tail,
            final(ctx).blocks == old(ctx).blocks,
            final(ctx).values == old(ctx).values,
            final(ctx).operations@.len() == old(ctx).operations@.len() + 1,
            final(ctx).operations@[p.idx as int] == (Operation {
                behind: old(ctx).operations@[root.idx as int].behind,
                ahead: Some(root),
                ..inserted
            }),
            forall|j: int|
                0 <= j < old(ctx).operations@.len() ==> (#[trigger] final(ctx).operations@[j])
                    == (if j == root.idx {
                    (Operation { behind: Some(p), ..old(ctx).operations@[j] })
                } else if old(ctx).operations@[root.idx as int].behind == Some(
                    Ptr { idx: j as usize },
                ) {
                    (Operation { ahead: Some(p), ..old(ctx).operations@[j] })
                } else {
                    old(ctx).operations@[j]
                }),
    {
        proof {
            let och = old(self).chain@;
            let k = chain_pos(och, root);
            assert(0 <= k < och.len() && och[k] == root) by {
                let w = choose|w: int| 0 <= w < och.len() && och[w] == root;
                assert(och[w] == root);
            }
            if 0 < k {
                assert(och[k - 1].idx != och[k].idx);
            }
        }
        let op_id = ctx.alloc_operation(inserted);
        let p = Ptr::new(op_id.0);
        let root_behind = ctx.get_operation(OperationId(root.idx)).behind;
        match root_behind {
            Some(prev) => {
                let n = ctx.get_operation_mut(OperationId(p.idx));
                n.behind = Some(prev);
                n.ahead = Some(root);
                ctx.get_operation_mut(OperationId(prev.idx)).ahead = Some(p);
                ctx.get_operation_mut(OperationId(root.idx)).behind = Some(p);
            },
            None => {
                ctx.get_operation_mut(OperationId(p.idx)).ahead = Some(root);
                ctx.get_operation_mut(OperationId(root.idx)).behind = Some(p);
                self.head = Some(p);
            },
        }
        proof {
            let och = old(self).chain@;
            let k = chain_pos(och, root);
            self.chain@ = och.insert(k, p);
            assert forall|j: int|
                0 <= j < och.len() && j != k && j != k - 1 implies {
                    let q = #[trigger] och[j];
                    &&& ctx.operations@[q.idx as int].ahead == old(ctx).operations@[q.idx as int].ahead
                    &&& ctx.operations@[q.idx as int].behind == old(ctx).operations@[q.idx as int].behind
                } by {
                assert(och[j] != och[k]);
                if 0 < k {
                    assert(och[j] != och[k - 1]);
                }
            }
            lemma_chain_insert(och, old(ctx).operations@, ctx.operations@, k, p);
            assert forall|i: int| 0 <= i < self.ops@.len() implies self.chain@.contains(
                #[trigger] self.ops@[i],
            ) by {
                let w = choose|w: int| 0 <= w < och.len() && och[w] == old(self).ops@[i];
                if w < k {
                    assert(self.chain@[w] == old(self).ops@[i]);
                } else {
                    assert(self.chain@[w + 1] == old(self).ops@[i]);
                }
            }
        }
        p
    }

    /// Allocates `inserted` and links it as the new head; the rest of the
    /// program order is unchanged. On an empty sequence the node becomes
    /// head and tail at once.
    ///
    /// Like [`Block::insert_behind`], the new node joins the chain only,
    /// not the cursor order.
    pub fn prepend(&mut self, ctx: &mut Ctx, inserted: Operation) -> (p: Ptr)
        requires
            block_wf(*old(self), old(ctx).operations@),
            inserted.unlinked(),
        ensures
            block_wf(*final(self), final(ctx).operations@),
            p.idx == old(ctx).operations@.len(),
            final(self).chain@ =~= seq![p] + old(self).chain@,
            final(self).ops == old(self).ops,
            final(self).id == old(self).id,
            final(self).head == Some(p),
            final(self).tail == (if old(self).chain@.len() == 0 {
                Some(p)
            } else {
                old(self).tail
            }),
            final(ctx).blocks == old(ctx).blocks,
            final(ctx).values == old(ctx).values,
            final(ctx).operations@.len() == old(ctx).operations@.len() + 1,
            final(ctx).operations@[p.idx as int] == (Operation {
                behind: None,
                ahead: old(self).head,
                ..inserted
            }),
            forall|j: int|
                0 <= j < old(ctx).operations@.len() ==> (#[trigger] final(ctx).operations@[j])
                    == (if old(self).head == Some(Ptr { idx: j as usize }) {
                    (Operation { behind: Some(p), ..old(ctx).operations@[j] })
                } else {
                    old(ctx).operations@[j]
                }),
    {
        let op_id = ctx.alloc_operation(inserted);
        let p = Ptr::new(op_id.0);
        match self.head {
            Some(h) => {
                ctx.get_operation_mut(OperationId(p.idx)).ahead = Some(h);
                ctx.get_operation_mut(OperationId(h.idx)).behind = Some(p);
            },
            None => {
                self.tail = Some(p);
            },
        }
        self.head = Some(p);
        proof {
            let och = old(self).chain@;
            self.chain@ = seq![p] + och;
            if och.len() > 0 {
                assert(och.insert(0, p) =~= seq![p] + och);
                assert forall|j: int|
                    0 <= j < och.len() && j != 0 && j != -1 implies {
                        let q = #[trigger] och[j];
                        &&& ctx.operations@[q.idx as int].ahead == old(ctx).operations@[q.idx as int].ahead
                        &&& ctx.operations@[q.idx as int].behind == old(ctx).operations@[q.idx as int].behind
                    } by {
                    assert(och[j] != och[0]);
                }
                lemma_chain_insert(och, old(ctx).operations@, ctx.operations@, 0, p);
                assert(self.chain@ =~= och.insert(0, p));
            } else {
                assert(self.chain@ =~= seq![p]);
            }
            assert forall|i: int| 0 <= i < self.ops@.len() implies self.chain@.contains(
                #[trigger] self.ops@[i],
            ) by {
                let w = choose|w: int| 0 <= w < och.len() && och[w] == old(self).ops@[i];
                assert(self.chain@[w + 1] == old(self).ops@[i]);
            }
        }
        p
    }

    /// A fresh forward walk of the chain, starting at the head.
    pub fn iter<'a>(&self, ctx: &'a Ctx) -> (it: LinkedListIter<'a>)
        requires
            block_wf(*self, ctx.operations@),
        ensures
            it.wf(),
            it.chain@ == self.chain@,
            it.pos@ == 0,
            it.ctx == ctx,
    {
        LinkedListIter { ctx, current: self.head, chain: Ghost(self.chain@), pos: Ghost(0) }
    }

    /// The whole program order as a vector of handles: exactly the chain.
    pub fn iterate(&self, ctx: &Ctx) -> (r: Vec<Ptr>)
        requires
            block_wf(*self, ctx.operations@),
        ensures
            r@ =~= self.chain@,
    {
        let mut it = self.iter(ctx);
        let mut out: Vec<Ptr> = Vec::new();
        loop
            invariant_except_break
                it.wf(),
                it.chain@ == self.chain@,
                it.ctx == ctx,
                0 <= it.pos@ <= self.chain@.len(),
                out@ =~= self.chain@.take(it.pos@),
            ensures
                out@ =~= self.chain@,
            decreases self.chain@.len() - it.pos@,
        {
            match it.next() {
                Some(q) => {
                    out.push(q);
                    proof {
                        assert(out@ =~= self.chain@.take(it.pos@));
                    }
                },
                None => {
                    proof {
                        assert(it.pos@ == self.chain@.len());
                        assert(self.chain@.take(self.chain@.len() as int) =~= self.chain@);
                    }
                    break ;
                },
            }
        }
        out
    }
}

/// A lazy, forward-only walk over one block's chain.
pub struct LinkedListIter<'a> {
    pub ctx: &'a Ctx,
    pub current: Option<Ptr>,
    /// The chain being walked, as it was when the walk started.
    pub chain: Ghost<Seq<Ptr>>,
    /// How many handles were already yielded.
    pub pos: Ghost<int>,
}

impl<'a> LinkedListIter<'a> {
    /// The walk is consistent: the chain is intact in the store and the
    /// current handle is the next chain member, if any is left.
    pub open spec fn wf(&self) -> bool {
        &&& chain_links(self.chain@, self.ctx.operations@)
        &&& 0 <= self.pos@ <= self.chain@.len()
        &&& self.current == (if self.pos@ < self.chain@.len() {
            Some(self.chain@[self.pos@])
        } else {
            None::<Ptr>
        })
    }

    /// Yields the next handle in program order, or nothing at the end.
    pub fn next(&mut self) -> (r: Option<Ptr>)
        requires
            old(self).wf(),
        ensures
            final(self).wf(),
            final(self).chain == old(self).chain,
            final(self).ctx == old(self).ctx,
            r == (if old(self).pos@ < old(self).chain@.len() {
                Some(old(self).chain@[old(self).pos@])
            } else {
                None::<Ptr>
            }),
            final(self).pos@ == (if old(self).pos@ < old(self).chain@.len() {
                old(self).pos@ + 1
            } else {
                old(self).pos@
            }),
    {
        match self.current {
            None => None,
            Some(cur) => {
                let node = self.ctx.get_operation(OperationId(cur.idx));
                self.current = node.ahead;
                proof {
                    self.pos@ = self.pos@ + 1;
                }
                Some(cur)
            },
        }
    }
}

/// Splicing a fresh node `p` before position `k` of a well linked chain
/// leaves a well linked chain: only the neighbours of the seam changed,
/// and they now point through `p`.
#[verifier::rlimit(100)]
#[verifier::spinoff_prover]
proof fn lemma_chain_insert(
    och: Seq<Ptr>,
    old_ops: Seq<Operation>,
    new_ops: Seq<Operation>,
    k: int,
    p: Ptr,
)
    requires
        chain_links(och, old_ops),
        0 <= k < och.len(),
        p.idx == old_ops.len(),
        new_ops.len() == old_ops.len() + 1,
        new_ops[p.idx as int].ahead == Some(och[k]),
        new_ops[p.idx as int].behind == (if 0 < k {
            Some(och[k - 1])
        } else {
            None::<Ptr>
        }),
        new_ops[och[k].idx as int].ahead == old_ops[och[k].idx as int].ahead,
        new_ops[och[k].idx as int].behind == Some(p),
        0 < k ==> new_ops[och[k - 1].idx as int].ahead == Some(p) && new_ops[och[k
            - 1].idx as int].behind == old_ops[och[k - 1].idx as int].behind,
        forall|j: int|
            0 <= j < och.len() && j != k && j != k - 1 ==> {
                let q = #[trigger] och[j];
                &&& new_ops[q.idx as int].ahead == old_ops[q.idx as int].ahead
                &&& new_ops[q.idx as int].behind == old_ops[q.idx as int].behind
            },
    ensures
        chain_links(och.insert(k, p), new_ops),
{
    let nch = och.insert(k, p);
    assert forall|i: int, j: int| 0 <= i < j < nch.len() implies nch[i] != nch[j] by {
        if i < k {
            assert(nch[i] == och[i]);
        } else if i == k {
            assert(nch[i] == p);
        } else {
            assert(nch[i] == och[i - 1]);
        }
        if j < k {
            assert(nch[j] == och[j]);
        } else if j == k {
            assert(nch[j] == p);
        } else {
            assert(nch[j] == och[j - 1]);
        }
    }
    assert forall|i: int| 0 <= i < nch.len() implies {
        let q = #[trigger] nch[i];
        &&& q.idx < new_ops.len()
        &&& new_ops[q.idx as int].ahead == (if i + 1 < nch.len() {
            Some(nch[i + 1])
        } else {
            None::<Ptr>
        })
        &&& new_ops[q.idx as int].behind == (if 0 < i {
            Some(nch[i - 1])
        } else {
            None::<Ptr>
        })
    } by {
        if i < k {
            assert(nch[i] == och[i]);
            if i + 1 < k {
                assert(nch[i + 1] == och[i + 1]);
            } else {
                assert(nch[k] == p);
            }
            if 0 < i {
                assert(nch[i - 1] == och[i - 1]);
            }
        } else if i == k {
            assert(nch[i] == p);
            assert(nch[i + 1] == och[k]);
            if 0 < k {
                assert(nch[i - 1] == och[k - 1]);
            }
        } else {
            assert(nch[i] == och[i - 1]);
            if i + 1 < nch.len() {
                assert(nch[i + 1] == och[i]);
            }
            if k < i - 1 {
                assert(nch[i - 1] == och[i - 2]);
            } else {
                assert(nch[i - 1] == p);
            }
        }
    }
}

/// In a duplicate-free chain, the chain position of the handle stored at
/// `at` is `at` itself.
pub proof fn lemma_chain_pos_unique(ch: Seq<Ptr>, p: Ptr, at: int)
    requires
        forall|i: int, j: int| 0 <= i < j < ch.len() ==> ch[i] != ch[j],
        0 <= at < ch.len(),
        ch[at] == p,
    ensures
        ch.contains(p),
        chain_pos(ch, p) == at,
{
    assert(ch.contains(p));
    let w = chain_pos(ch, p);
    assert(0 <= w < ch.len() && ch[w] == p) by {
        let u = choose|u: int| 0 <= u < ch.len() && ch[u] == p;
        assert(ch[u] == p);
    }
    if w < at {
        assert(ch[w] != ch[at]);
    } else if at < w {
        assert(ch[at] != ch[w]);
    }
}

} // verus!
