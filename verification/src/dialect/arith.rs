//! The generic arithmetic dialect: unary operations and literal constants.

use vstd::prelude::*;

use crate::attr::{Attribute, AttributeMap};
use crate::ir::{bumped, Counter, Operation, Value};

verus! {

/// An `arith.negate` over `src`, producing a fresh value.
pub fn negate(ids: &mut Counter, src: Value) -> (op: Operation)
    ensures
        op.name@ == "arith.negate"@,
        op.operands@ =~= seq![src],
        op.result matches Some(v) && v.id == old(ids).next && v.def is None,
        op.blocks@.len() == 0,
        op.attributes@.len() == 0,
        op.unlinked(),
        final(ids).next == bumped(old(ids).next),
{
    Operation {
        name: "arith.negate",
        operands: vec![src],
        blocks: Vec::new(),
        result: Some(Value::new(ids, None)),
        attributes: AttributeMap::new(),
        behind: None,
        ahead: None,
    }
}

/// An `arith.complement` over `src`, producing a fresh value.
pub fn complement(ids: &mut Counter, src: Value) -> (op: Operation)
    ensures
        op.name@ == "arith.complement"@,
        op.operands@ =~= seq![src],
        op.result matches Some(v) && v.id == old(ids).next && v.def is None,
        op.blocks@.len() == 0,
        op.attributes@.len() == 0,
        op.unlinked(),
        final(ids).next == bumped(old(ids).next),
{
    Operation {
        name: "arith.complement",
        operands: vec![src],
        blocks: Vec::new(),
        result: Some(Value::new(ids, None)),
        attributes: AttributeMap::new(),
        behind: None,
        ahead: None,
    }
}

/// An `arith.constant` carrying `value` as its literal attribute and
/// producing a fresh value.
pub fn constant(ids: &mut Counter, value: u32) -> (op: Operation)
    ensures
        op.name@ == "arith.constant"@,
        op.operands@.len() == 0,
        op.result matches Some(v) && v.id == old(ids).next && v.def is None,
        op.blocks@.len() == 0,
        op.attributes@.len() == 1,
        op.attributes.spec_get("value"@) == Some(Attribute::Int(value)),
        op.unlinked(),
        final(ids).next == bumped(old(ids).next),
{
    let mut attributes = AttributeMap::new();
    attributes.insert(String::from_str("value"), Attribute::Int(value));
    Operation {
        name: "arith.constant",
        operands: Vec::new(),
        blocks: Vec::new(),
        result: Some(Value::new(ids, None)),
        attributes,
        behind: None,
        ahead: None,
    }
}

} // verus!
