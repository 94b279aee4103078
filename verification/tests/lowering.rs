use lorax::ctx::Ctx;
use lorax::dialect::from_arith::LowerBinop;
use lorax::dialect::from_func::{inject_prologue, LowerFunc};
use lorax::dialect::from_mem::LowerMem;
use lorax::dialect::{arith, func, mem, x86};
use lorax::ir::{Block, Counter, Value};
use lorax::rewrite::RewriteRuleSet;
use lorax::transform::{rewrite_ops, rewrite_tree, RewritingCtx};

fn names(block: &Block, ctx: &Ctx) -> Vec<&'static str> {
    block.iterate(ctx).iter().map(|p| block.get(*p, ctx).name).collect()
}

#[test]
fn alias_results_are_their_operands() {
    let mut ids = Counter::new();
    let src = Value::new(&mut ids, None);
    let dst = Value::new(&mut ids, None);
    let op = x86::mov(src, dst);
    assert_eq!(op.result, Some(op.operands[1]));
    let op = x86::subq(src, dst);
    assert_eq!(op.result, Some(op.operands[1]));
    let op = x86::neg(src);
    assert_eq!(op.result, Some(op.operands[0]));
    let op = x86::not(src);
    assert_eq!(op.result, Some(op.operands[0]));
}

#[test]
fn unary_lowering_emits_mov_then_neg() {
    let mut ctx = Ctx::new();
    let mut ids = Counter::new();
    let block = Block::new(&mut ids);
    let v = Value::new(&mut ctx.values, None);
    let mut rctx = RewritingCtx::from_start(ctx, block);
    let negate = arith::negate(rctx.values(), v);
    let dst = negate.result.unwrap();
    rctx.alloc_op(negate);
    let (mut ctx, mut block) = rctx.release();
    let mut pass = RewriteRuleSet::new();
    pass.add(LowerBinop);
    rewrite_ops(&mut ctx, &mut block, &pass);
    let order = block.iterate(&ctx);
    assert_eq!(order.len(), 2);
    let mov = block.get(order[0], &ctx);
    let neg = block.get(order[1], &ctx);
    assert_eq!(mov.name, "x86.mov");
    assert_eq!(mov.operands[0].id, v.id);
    assert_eq!(mov.operands[1].id, dst.id);
    assert_eq!(neg.name, "x86.neg");
    assert_eq!(neg.operands[0].id, dst.id);
    assert_eq!(neg.result.unwrap().id, dst.id);
    for name in names(&block, &ctx) {
        assert!(!name.starts_with("arith."));
    }
}

#[test]
fn complement_lowering_emits_mov_then_not() {
    let mut ctx = Ctx::new();
    let mut ids = Counter::new();
    let block = Block::new(&mut ids);
    let v = Value::new(&mut ctx.values, None);
    let mut rctx = RewritingCtx::from_start(ctx, block);
    let complement = arith::complement(rctx.values(), v);
    rctx.alloc_op(complement);
    let (mut ctx, mut block) = rctx.release();
    let mut pass = RewriteRuleSet::new();
    pass.add(LowerBinop);
    rewrite_ops(&mut ctx, &mut block, &pass);
    assert_eq!(names(&block, &ctx), vec!["x86.mov", "x86.not"]);
}

#[test]
fn unary_lowering_is_idempotent_once_complete() {
    let mut ctx = Ctx::new();
    let mut ids = Counter::new();
    let block = Block::new(&mut ids);
    let v = Value::new(&mut ctx.values, None);
    let mut rctx = RewritingCtx::from_start(ctx, block);
    let negate = arith::negate(rctx.values(), v);
    rctx.alloc_op(negate);
    let (mut ctx, mut block) = rctx.release();
    let mut pass = RewriteRuleSet::new();
    pass.add(LowerBinop);
    rewrite_ops(&mut ctx, &mut block, &pass);
    let lowered_names = names(&block, &ctx);
    let lowered_count = ctx.operations.len();
    let lowered_order = block.iterate(&ctx);
    rewrite_ops(&mut ctx, &mut block, &pass);
    assert_eq!(names(&block, &ctx), lowered_names);
    assert_eq!(ctx.operations.len(), lowered_count);
    assert_eq!(block.iterate(&ctx), lowered_order);
}

#[test]
fn unary_lowering_leaves_foreign_operations_untouched() {
    let mut ctx = Ctx::new();
    let mut ids = Counter::new();
    let block = Block::new(&mut ids);
    let mut rctx = RewritingCtx::from_start(ctx, block);
    let constant = arith::constant(rctx.values(), 7);
    let cptr = rctx.alloc_op(constant);
    let cval = rctx.result_of(cptr);
    let negate = arith::negate(rctx.values(), cval);
    rctx.alloc_op(negate);
    rctx.alloc_op(x86::ret());
    let (mut ctx, mut block) = rctx.release();
    let mut pass = RewriteRuleSet::new();
    pass.add(LowerBinop);
    rewrite_ops(&mut ctx, &mut block, &pass);
    assert_eq!(
        names(&block, &ctx),
        vec!["arith.constant", "x86.mov", "x86.neg", "x86.ret"]
    );
    let order = block.iterate(&ctx);
    let kept = block.get(order[0], &ctx);
    assert_eq!(kept.name, "arith.constant");
    assert_eq!(kept.result.unwrap().id, cval.id);
    let ret = block.get(order[3], &ctx);
    assert!(ret.operands.is_empty());
    assert!(ret.result.is_none());
}

#[test]
fn function_lowering_frames_the_body() {
    let mut ctx = Ctx::new();
    let mut ids = Counter::new();
    let body = Block::new(&mut ids);
    let mut rctx = RewritingCtx::from_start(ctx, body);
    let constant = arith::constant(rctx.values(), 0);
    let cptr = rctx.alloc_op(constant);
    let cval = rctx.result_of(cptr);
    rctx.alloc_op(func::ret(cval));
    let (mut ctx, mut body) = rctx.release();
    inject_prologue(&mut ctx, &mut body);
    let mut pass = RewriteRuleSet::new();
    pass.add(LowerFunc);
    rewrite_ops(&mut ctx, &mut body, &pass);
    let all = names(&body, &ctx);
    assert_eq!(
        &all[..4],
        &["x86.rbp", "x86.rsp", "x86.pushq", "x86.mov"],
        "the body must begin with the prologue"
    );
    assert_eq!(
        &all[all.len() - 3..],
        &["x86.ax", "x86.mov", "x86.ret"],
        "the body must end with the lowered return"
    );
    // the lowered return moves the constant-carrying value into the register
    let order = body.iterate(&ctx);
    let mov = body.get(order[order.len() - 2], &ctx);
    assert_eq!(mov.operands[0].id, cval.id);
}

#[test]
fn memory_lowering_rewrites_alloca_and_frames_ret() {
    let mut ctx = Ctx::new();
    let mut ids = Counter::new();
    let block = Block::new(&mut ids);
    let mut rctx = RewritingCtx::from_start(ctx, block);
    let size = Value::new(rctx.values(), None);
    let alloca = mem::alloca(rctx.values(), size);
    rctx.alloc_op(alloca);
    rctx.alloc_op(x86::ret());
    let (mut ctx, mut block) = rctx.release();
    let mut pass = RewriteRuleSet::new();
    pass.add(LowerMem);
    rewrite_ops(&mut ctx, &mut block, &pass);
    assert_eq!(
        names(&block, &ctx),
        vec![
            "x86.rsp",
            "x86.subq",
            "x86.rbp",
            "x86.rsp",
            "x86.mov",
            "x86.popq",
            "x86.ret",
        ]
    );
}

#[test]
fn functions_carry_their_body_as_a_region() {
    let mut ids = Counter::new();
    let body = Block::new(&mut ids);
    let f = func::func(body);
    assert_eq!(f.name, "func.func");
    assert_eq!(f.blocks.len(), 1);
    assert!(f.result.is_none());
    let d = mem::dealloca(Value::new(&mut ids, None));
    assert_eq!(d.name, "mem.dealloca");
    assert!(d.result.is_none());
    let offset = Value::new(&mut ids, None);
    let s = x86::svar(&mut ids, offset);
    assert_eq!(s.name, "x86.svar");
    let p = x86::pushq(Value::new(&mut ids, None));
    assert_eq!(p.name, "x86.pushq");
    let p = x86::popq(Value::new(&mut ids, None));
    assert_eq!(p.name, "x86.popq");
}

#[test]
fn alloc_op_fills_the_definition_reference() {
    let mut ctx = Ctx::new();
    let mut ids = Counter::new();
    let block = Block::new(&mut ids);
    let mut rctx = RewritingCtx::from_start(ctx, block);
    let constant = arith::constant(rctx.values(), 3);
    assert!(constant.result.unwrap().def.is_none());
    let ptr = rctx.alloc_op(constant);
    let stored = rctx.deref(ptr);
    assert_eq!(stored.result.unwrap().def, Some(ptr));
    assert!(!rctx.done());
    assert_eq!(rctx.name(), "arith.constant");
    assert_eq!(rctx.operands().len(), 0);
    assert!(rctx.result().is_some());
    let (_ctx, _block) = rctx.release();
}

#[test]
fn the_tree_driver_lowers_the_whole_function() {
    let mut ctx = Ctx::new();
    let mut ids = Counter::new();
    let mut body = Block::new(&mut ids);
    let constant = arith::constant(&mut ctx.values, 0);
    let cval = constant.result.unwrap();
    body.append(&mut ctx, constant);
    body.append(&mut ctx, func::ret(cval));
    let mut module = Block::new(&mut ids);
    module.append(&mut ctx, func::func(body));
    let mut pass = RewriteRuleSet::new();
    pass.add(LowerFunc);
    let (ctx, module) = rewrite_tree(ctx, module, &pass);
    let fptr = module.iterate(&ctx)[0];
    let fop = module.get(fptr, &ctx);
    assert_eq!(fop.name, "func.func");
    let entry = &fop.blocks[0];
    let entry_names: Vec<&'static str> =
        entry.iterate(&ctx).iter().map(|p| entry.get(*p, &ctx).name).collect();
    assert_eq!(
        entry_names,
        vec![
            "x86.rbp",
            "x86.rsp",
            "x86.pushq",
            "x86.mov",
            "arith.constant",
            "x86.ax",
            "x86.mov",
            "x86.ret",
        ],
        "one pass of the tree driver injects the prologue and lowers the return"
    );
    let order = entry.iterate(&ctx);
    let mov = entry.get(order[6], &ctx);
    assert_eq!(mov.operands[0].id, cval.id);
    let ret = entry.get(order[7], &ctx);
    assert!(ret.operands.is_empty());
    assert!(ret.result.is_none());
}

#[test]
fn function_definitions_get_their_prologue_through_the_pass() {
    let mut ctx = Ctx::new();
    let mut ids = Counter::new();
    let mut body = Block::new(&mut ids);
    let constant = arith::constant(&mut ctx.values, 0);
    let cval = constant.result.unwrap();
    body.append(&mut ctx, constant);
    body.append(&mut ctx, func::ret(cval));
    let mut module = Block::new(&mut ids);
    module.append(&mut ctx, func::func(body));
    let mut pass = RewriteRuleSet::new();
    pass.add(LowerFunc);
    rewrite_ops(&mut ctx, &mut module, &pass);
    let fptr = module.iterate(&ctx)[0];
    let fop = module.get(fptr, &ctx);
    assert_eq!(fop.name, "func.func");
    let entry = &fop.blocks[0];
    let entry_names: Vec<&'static str> =
        entry.iterate(&ctx).iter().map(|p| entry.get(*p, &ctx).name).collect();
    assert_eq!(
        entry_names,
        vec![
            "x86.rbp",
            "x86.rsp",
            "x86.pushq",
            "x86.mov",
            "arith.constant",
            "func.ret",
        ]
    );
}
