//! The generic memory dialect: stack allocation and release.

use vstd::prelude::*;

use crate::attr::AttributeMap;
use crate::ir::{bumped, Counter, Operation, Value};

verus! {

/// A `mem.alloca` taking a size operand and producing a fresh address
/// value.
pub fn alloca(ids: &mut Counter, size: Value) -> (op: Operation)
    ensures
        op.name@ == "mem.alloca"@,
        op.operands@ =~= seq![size],
        op.result matches Some(v) && v.id == old(ids).next && v.def is None,
        op.blocks@.len() == 0,
        op.attributes@.len() == 0,
        op.unlinked(),
        final(ids).next == bumped(old(ids).next),
{
    Operation {
        name: "mem.alloca",
        operands: vec![size],
        blocks: Vec::new(),
        result: Some(Value::new(ids, None)),
        attributes: AttributeMap::new(),
        behind: None,
        ahead: None,
    }
}

/// A `mem.dealloca` taking a size operand and producing nothing.
pub fn dealloca(size: Value) -> (op: Operation)
    ensures
        op.name@ == "mem.dealloca"@,
        op.operands@ =~= seq![size],
        op.result is None,
        op.blocks@.len() == 0,
        op.attributes@.len() == 0,
        op.unlinked(),
{
    Operation {
        name: "mem.dealloca",
        operands: vec![size],
        blocks: Vec::new(),
        result: None,
        attributes: AttributeMap::new(),
        behind: None,
        ahead: None,
    }
}

} // verus!
