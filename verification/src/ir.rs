//! The data types flowing through the arena: values, operations and blocks.

use vstd::prelude::*;

use crate::attr::{Attribute, AttributeMap};
use crate::ctx::{Ctx, OperationId, Ptr};

verus! {

/// Hands out fresh identifiers, one compilation run at a time.
///
/// Identifiers are drawn monotonically; threading the counter explicitly
/// keeps runs deterministic and isolated from each other.
#[derive(Debug, Clone, Copy, PartialEq, Eq, Structural)]
pub struct Counter {
    pub next: usize,
}

/// `n` moved one identifier forward, stopping at the end of the range.
pub open spec fn bumped(n: usize) -> usize {
    if n < usize::MAX {
        (n + 1) as usize
    } else {
        n
    }
}

impl Counter {
    /// A counter that starts at zero.
    pub fn new() -> (c: Self)
        ensures
            c.next == 0,
    {
        Counter { next: 0 }
    }

    /// Draws the next identifier.
    ///
    /// Identifiers are unique as long as the counter has not exhausted its
    /// range; at the very end of the range it stops moving.
    pub fn fresh(&mut self) -> (id: usize)
        ensures
            id == old(self).next,
            final(self).next == bumped(old(self).next),
    {
        let id = self.next;
        if self.next < usize::MAX {
            self.next = self.next + 1;
        }
        id
    }
}

/// The two operations carry the same content: the same name, operands,
/// result, attributes and nested regions — everything but the two
/// sequence links, which belong to whatever sequence holds the slot.
pub open spec fn op_content_eq(a: Operation, b: Operation) -> bool {
    &&& a.name == b.name
    &&& a.operands == b.operands
    &&& a.result == b.result
    &&& a.attributes == b.attributes
    &&& a.blocks == b.blocks
}

/// An SSA-style value identity: a display identifier plus an optional
/// *definition reference*, the handle of the operation that produced it.
///
/// The definition reference is filled lazily the first time an operation
/// carrying the value enters a sequence.
#[derive(Debug, Clone, Copy, PartialEq, Eq, Structural)]
pub struct Value {
    pub id: usize,
    pub def: Option<Ptr>,
}

impl Value {
    /// A value with a fresh identifier and the given definition reference.
    pub fn new(ids: &mut Counter, ptr: Option<Ptr>) -> (v: Value)
        ensures
            v.id == old(ids).next,
            v.def == ptr,
            final(ids).next == bumped(old(ids).next),
    {
        Value { id: ids.fresh(), def: ptr }
    }
}

/// Zero or one value produced by an operation.
pub type OpResult = Option<Value>;

/// One IR instruction: a fully qualified name, ordered operands, an
/// optional result, literal attributes, nested regions, and the two
/// sequence links that only the sequencer touches.
pub struct Operation {
    pub name: &'static str,
    pub operands: Vec<Value>,
    pub blocks: Vec<Block>,
    pub result: OpResult,
    pub attributes: AttributeMap,
    pub behind: Option<Ptr>,
    pub ahead: Option<Ptr>,
}

impl Operation {
    /// Whether the operation carries no sequence links yet.
    pub open spec fn unlinked(&self) -> bool {
        self.behind is None && self.ahead is None
    }

    /// Appends a nested region.
    pub fn push_block(&mut self, block: Block)
        ensures
            final(self).blocks@ =~= old(self).blocks@.push(block),
            final(self).name == old(self).name,
            final(self).operands == old(self).operands,
            final(self).result == old(self).result,
            final(self).attributes == old(self).attributes,
            final(self).behind == old(self).behind,
            final(self).ahead == old(self).ahead,
    {
        self.blocks.push(block);
    }

    /// The value this operation produces.
    ///
    /// Asking a result-less operation for its result is a programmer error.
    pub fn get_result(&self) -> (v: Value)
        requires
            self.result is Some,
        ensures
            Some(v) == self.result,
    {
        self.result.unwrap()
    }

    /// Borrows the produced value mutably.
    pub fn get_mut_result(&mut self) -> (v: &mut Value)
        requires
            old(self).result is Some,
        ensures
            Some(*v) == old(self).result,
            final(self).result == Some(*final(v)),
            final(self).name == old(self).name,
            final(self).operands == old(self).operands,
            final(self).blocks == old(self).blocks,
            final(self).attributes == old(self).attributes,
            final(self).behind == old(self).behind,
            final(self).ahead == old(self).ahead,
    {
        self.result.as_mut().unwrap()
    }

    /// The nested regions, outermost first.
    pub fn walk_blocks(&self) -> (r: &Vec<Block>)
        ensures
            r == &self.blocks,
    {
        &self.blocks
    }

    /// The nested regions mutably.
    pub fn walk_blocks_mut(&mut self) -> (r: &mut Vec<Block>)
        ensures
            *r == old(self).blocks,
            final(self).blocks == *final(r),
            final(self).name == old(self).name,
            final(self).operands == old(self).operands,
            final(self).result == old(self).result,
            final(self).attributes == old(self).attributes,
            final(self).behind == old(self).behind,
            final(self).ahead == old(self).ahead,
    {
        &mut self.blocks
    }

    /// Binds the attribute `key` to `attr`.
    pub fn add_attr(&mut self, key: String, attr: Attribute)
        ensures
            final(self).attributes@ =~= old(self).attributes@.push((key@, attr)),
            final(self).name == old(self).name,
            final(self).operands == old(self).operands,
            final(self).blocks == old(self).blocks,
            final(self).result == old(self).result,
            final(self).behind == old(self).behind,
            final(self).ahead == old(self).ahead,
    {
        self.attributes.insert(key, attr);
    }
}

/// An ordered, mutable sequence of operation handles: program order is the
/// intrusive chain from `head` to `tail`, while `ops` records the handles
/// in the order the rewrite cursor visits them.
pub struct Block {
    pub id: usize,
    pub ops: Vec<Ptr>,
    pub head: Option<Ptr>,
    pub tail: Option<Ptr>,
    /// The program order of the chain, kept as a ghost model.
    pub chain: Ghost<Seq<Ptr>>,
}

impl Block {
    /// An empty block with a fresh display identifier.
    pub fn new(ids: &mut Counter) -> (b: Self)
        ensures
            b.id == old(ids).next,
            final(ids).next == bumped(old(ids).next),
            b.ops@ =~= Seq::<Ptr>::empty(),
            b.head is None,
            b.tail is None,
            b.chain@ =~= Seq::<Ptr>::empty(),
    {
        Block {
            id: ids.fresh(),
            ops: Vec::new(),
            head: None,
            tail: None,
            chain: Ghost(Seq::empty()),
        }
    }

    /// Reads the operation behind `ptr`.
    pub fn get<'a>(&self, ptr: Ptr, ctx: &'a Ctx) -> (op: &'a Operation)
        requires
            ptr.idx < ctx.operations@.len(),
        ensures
            *op == ctx.operations@[ptr.idx as int],
    {
        ctx.get_operation(OperationId(ptr.idx))
    }

    /// Borrows the operation behind `ptr` mutably.
    pub fn get_mut<'a>(&self, ptr: Ptr, ctx: &'a mut Ctx) -> (op: &'a mut Operation)
        requires
            ptr.idx < old(ctx).operations@.len(),
        ensures
            *op == old(ctx).operations@[ptr.idx as int],
            final(ctx).operations@ == old(ctx).operations@.update(
                ptr.idx as int,
                *final(op),
            ),
            final(ctx).blocks == old(ctx).blocks,
            final(ctx).values == old(ctx).values,
    {
        ctx.get_operation_mut(OperationId(ptr.idx))
    }

    /// Records `op` as the next handle in cursor order.
    pub fn push(&mut self, op: Ptr)
        ensures
            final(self).ops@ =~= old(self).ops@.push(op),
            final(self).id == old(self).id,
            final(self).head == old(self).head,
            final(self).tail == old(self).tail,
            final(self).chain == old(self).chain,
    {
        self.ops.push(op);
    }

    /// How many handles the cursor order holds.
    pub fn len(&self) -> (n: usize)
        ensures
            n == self.ops@.len(),
    {
        self.ops.len()
    }
}

} // verus!
