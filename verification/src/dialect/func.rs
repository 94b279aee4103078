//! The function dialect: function definitions and returns.

use vstd::prelude::*;

use crate::attr::AttributeMap;
use crate::ir::{Block, Operation, Value};

verus! {

/// A `func.func` holding its body as one nested region; no operands, no
/// result.
pub fn func(body: Block) -> (op: Operation)
    ensures
        op.name@ == "func.func"@,
        op.operands@.len() == 0,
        op.result is None,
        op.blocks@ =~= seq![body],
        op.attributes@.len() == 0,
        op.unlinked(),
{
    Operation {
        name: "func.func",
        operands: Vec::new(),
        blocks: vec![body],
        result: None,
        attributes: AttributeMap::new(),
        behind: None,
        ahead: None,
    }
}

/// A `func.ret` returning `val`; no result.
pub fn ret(val: Value) -> (op: Operation)
    ensures
        op.name@ == "func.ret"@,
        op.operands@ =~= seq![val],
        op.result is None,
        op.blocks@.len() == 0,
        op.attributes@.len() == 0,
        op.unlinked(),
{
    Operation {
        name: "func.ret",
        operands: vec![val],
        blocks: Vec::new(),
        result: None,
        attributes: AttributeMap::new(),
        behind: None,
        ahead: None,
    }
}

} // verus!
