//! Global allocation context for all IR nodes.
//!
//! Every operation and block is stored here, addressed by plain indices;
//! graph edges (operands, sequence links) are handles into this storage.

use vstd::prelude::*;

use crate::ir::{Block, Counter, Operation};

verus! {

/// A handle to an operation slot in a [`Ctx`].
#[derive(Debug, Copy, Clone, PartialEq, Eq, Structural)]
pub struct Ptr {
    pub idx: usize,
}

impl Ptr {
    /// Builds a handle from a raw index.
    pub fn new(idx: usize) -> (p: Ptr)
        ensures
            p.idx == idx,
    {
        Ptr { idx }
    }
}

impl From<usize> for Ptr {
    /// A handle from a raw index.
    fn from(idx: usize) -> (p: Self) {
        Ptr { idx }
    }
}

impl vstd::std_specs::convert::FromSpecImpl<usize> for Ptr {
    open spec fn obeys_from_spec() -> bool {
        true
    }

    open spec fn from_spec(idx: usize) -> Self {
        Ptr { idx }
    }
}

/// Identifies a block slot of a [`Ctx`].
#[derive(Copy, Clone, Debug, PartialEq, Eq, Structural)]
pub struct BlockId(pub usize);

/// Identifies an operation slot of a [`Ctx`].
#[derive(Copy, Clone, Debug, PartialEq, Eq, Structural)]
pub struct OperationId(pub usize);

/// Append-only storage for the IR of one compilation unit, together with
/// the counter that hands out fresh value and block identifiers.
pub struct Ctx {
    pub blocks: Vec<Block>,
    pub operations: Vec<Operation>,
    pub values: Counter,
}

impl Ctx {
    /// An empty context whose identifier counter starts at zero.
    pub fn new() -> (c: Self)
        ensures
            c.blocks@ =~= Seq::<Block>::empty(),
            c.operations@ =~= Seq::<Operation>::empty(),
            c.values.next == 0,
    {
        Ctx { blocks: Vec::new(), operations: Vec::new(), values: Counter::new() }
    }

    /// Stores `block` and returns its identifier; identifiers count up from zero.
    pub fn alloc_block(&mut self, block: Block) -> (id: BlockId)
        ensures
            id.0 == old(self).blocks@.len(),
            final(self).blocks@ =~= old(self).blocks@.push(block),
            final(self).operations == old(self).operations,
            final(self).values == old(self).values,
    {
        let id = BlockId(self.blocks.len());
        self.blocks.push(block);
        id
    }

    /// Reads the block behind `id`.
    pub fn get_block(&self, id: BlockId) -> (b: &Block)
        requires
            id.0 < self.blocks@.len(),
        ensures
            *b == self.blocks@[id.0 as int],
    {
        &self.blocks[id.0]
    }

    /// Borrows the block behind `id` mutably.
    pub fn get_block_mut(&mut self, id: BlockId) -> (b: &mut Block)
        requires
            id.0 < old(self).blocks@.len(),
        ensures
            *b == old(self).blocks@[id.0 as int],
            final(self).blocks@ == old(self).blocks@.update(id.0 as int, *final(b)),
            final(self).operations == old(self).operations,
            final(self).values == old(self).values,
    {
        &mut self.blocks[id.0]
    }

    /// Stores `op` and returns its identifier; identifiers count up from zero.
    pub fn alloc_operation(&mut self, op: Operation) -> (id: OperationId)
        ensures
            id.0 == old(self).operations@.len(),
            final(self).operations@ =~= old(self).operations@.push(op),
            final(self).blocks == old(self).blocks,
            final(self).values == old(self).values,
    {
        let id = OperationId(self.operations.len());
        self.operations.push(op);
        id
    }

    /// Reads the operation behind `id`.
    pub fn get_operation(&self, id: OperationId) -> (op: &Operation)
        requires
            id.0 < self.operations@.len(),
        ensures
            *op == self.operations@[id.0 as int],
    {
        &self.operations[id.0]
    }

    /// Borrows the operation behind `id` mutably.
    pub fn get_operation_mut(&mut self, id: OperationId) -> (op: &mut Operation)
        requires
            id.0 < old(self).operations@.len(),
        ensures
            *op == old(self).operations@[id.0 as int],
            final(self).operations@ == old(self).operations@.update(
                id.0 as int,
                *final(op),
            ),
            final(self).blocks == old(self).blocks,
            final(self).values == old(self).values,
    {
        &mut self.operations[id.0]
    }
}

} // verus!
