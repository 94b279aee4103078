//! The concrete target dialect: instruction-shaped operations, several of
//! which alias an operand as their result (in-place semantics), plus
//! nullary register reads whose fresh values stand for fixed physical
//! registers.

use vstd::prelude::*;

use crate::attr::AttributeMap;
use crate::ir::{bumped, Counter, Operation, Value};

verus! {

/// An `x86.mov` from `src` into `dst`; the result aliases `dst`.
pub fn mov(src: Value, dst: Value) -> (op: Operation)
    ensures
        op.name@ == "x86.mov"@,
        op.operands@ =~= seq![src, dst],
        op.result == Some(dst),
        op.blocks@.len() == 0,
        op.attributes@.len() == 0,
        op.unlinked(),
{
    Operation {
        name: "x86.mov",
        operands: vec![src, dst],
        blocks: Vec::new(),
        result: Some(dst),
        attributes: AttributeMap::new(),
        behind: None,
        ahead: None,
    }
}

/// An `x86.svar` over a stack offset, producing a fresh value.
pub fn svar(ids: &mut Counter, offset: Value) -> (op: Operation)
    ensures
        op.name@ == "x86.svar"@,
        op.operands@ =~= seq![offset],
        op.result matches Some(v) && v.id == old(ids).next && v.def is None,
        op.blocks@.len() == 0,
        op.attributes@.len() == 0,
        op.unlinked(),
        final(ids).next == bumped(old(ids).next),
{
    Operation {
        name: "x86.svar",
        operands: vec![offset],
        blocks: Vec::new(),
        result: Some(Value::new(ids, None)),
        attributes: AttributeMap::new(),
        behind: None,
        ahead: None,
    }
}

/// An `x86.subq` decrementing `reg` by `num`; the result aliases `reg`.
pub fn subq(num: Value, reg: Value) -> (op: Operation)
    ensures
        op.name@ == "x86.subq"@,
        op.operands@ =~= seq![num, reg],
        op.result == Some(reg),
        op.blocks@.len() == 0,
        op.attributes@.len() == 0,
        op.unlinked(),
{
    Operation {
        name: "x86.subq",
        operands: vec![num, reg],
        blocks: Vec::new(),
        result: Some(reg),
        attributes: AttributeMap::new(),
        behind: None,
        ahead: None,
    }
}

/// An `x86.pushq` of `num`; no result.
pub fn pushq(num: Value) -> (op: Operation)
    ensures
        op.name@ == "x86.pushq"@,
        op.operands@ =~= seq![num],
        op.result is None,
        op.blocks@.len() == 0,
        op.attributes@.len() == 0,
        op.unlinked(),
{
    Operation {
        name: "x86.pushq",
        operands: vec![num],
        blocks: Vec::new(),
        result: None,
        attributes: AttributeMap::new(),
        behind: None,
        ahead: None,
    }
}

/// An `x86.popq` into `num`; no result.
pub fn popq(num: Value) -> (op: Operation)
    ensures
        op.name@ == "x86.popq"@,
        op.operands@ =~= seq![num],
        op.result is None,
        op.blocks@.len() == 0,
        op.attributes@.len() == 0,
        op.unlinked(),
{
    Operation {
        name: "x86.popq",
        operands: vec![num],
        blocks: Vec::new(),
        result: None,
        attributes: AttributeMap::new(),
        behind: None,
        ahead: None,
    }
}

/// An `x86.neg` mutating `src` in place; the result aliases `src`.
pub fn neg(src: Value) -> (op: Operation)
    ensures
        op.name@ == "x86.neg"@,
        op.operands@ =~= seq![src],
        op.result == Some(src),
        op.blocks@.len() == 0,
        op.attributes@.len() == 0,
        op.unlinked(),
{
    Operation {
        name: "x86.neg",
        operands: vec![src],
        blocks: Vec::new(),
        result: Some(src),
        attributes: AttributeMap::new(),
        behind: None,
        ahead: None,
    }
}

/// An `x86.not` mutating `src` in place; the result aliases `src`.
pub fn not(src: Value) -> (op: Operation)
    ensures
        op.name@ == "x86.not"@,
        op.operands@ =~= seq![src],
        op.result == Some(src),
        op.blocks@.len() == 0,
        op.attributes@.len() == 0,
        op.unlinked(),
{
    Operation {
        name: "x86.not",
        operands: vec![src],
        blocks: Vec::new(),
        result: Some(src),
        attributes: AttributeMap::new(),
        behind: None,
        ahead: None,
    }
}

/// An `x86.ret`; no operands, no result.
pub fn ret() -> (op: Operation)
    ensures
        op.name@ == "x86.ret"@,
        op.operands@.len() == 0,
        op.result is None,
        op.blocks@.len() == 0,
        op.attributes@.len() == 0,
        op.unlinked(),
{
    Operation {
        name: "x86.ret",
        operands: Vec::new(),
        blocks: Vec::new(),
        result: None,
        attributes: AttributeMap::new(),
        behind: None,
        ahead: None,
    }
}

/// An `x86.rbp` read: a fresh value standing for the frame pointer.
pub fn rbp(ids: &mut Counter) -> (op: Operation)
    ensures
        op.name@ == "x86.rbp"@,
        op.operands@.len() == 0,
        op.result matches Some(v) && v.id == old(ids).next && v.def is None,
        op.blocks@.len() == 0,
        op.attributes@.len() == 0,
        op.unlinked(),
        final(ids).next == bumped(old(ids).next),
{
    Operation {
        name: "x86.rbp",
        operands: Vec::new(),
        blocks: Vec::new(),
        result: Some(Value::new(ids, None)),
        attributes: AttributeMap::new(),
        behind: None,
        ahead: None,
    }
}

/// An `x86.rsp` read: a fresh value standing for the stack pointer.
pub fn rsp(ids: &mut Counter) -> (op: Operation)
    ensures
        op.name@ == "x86.rsp"@,
        op.operands@.len() == 0,
        op.result matches Some(v) && v.id == old(ids).next && v.def is None,
        op.blocks@.len() == 0,
        op.attributes@.len() == 0,
        op.unlinked(),
        final(ids).next == bumped(old(ids).next),
{
    Operation {
        name: "x86.rsp",
        operands: Vec::new(),
        blocks: Vec::new(),
        result: Some(Value::new(ids, None)),
        attributes: AttributeMap::new(),
        behind: None,
        ahead: None,
    }
}

/// An `x86.ax` read: a fresh value standing for the return-value
/// register.
pub fn ax(ids: &mut Counter) -> (op: Operation)
    ensures
        op.name@ == "x86.ax"@,
        op.operands@.len() == 0,
        op.result matches Some(v) && v.id == old(ids).next && v.def is None,
        op.blocks@.len() == 0,
        op.attributes@.len() == 0,
        op.unlinked(),
        final(ids).next == bumped(old(ids).next),
{
    Operation {
        name: "x86.ax",
        operands: Vec::new(),
        blocks: Vec::new(),
        result: Some(Value::new(ids, None)),
        attributes: AttributeMap::new(),
        behind: None,
        ahead: None,
    }
}

} // verus!
