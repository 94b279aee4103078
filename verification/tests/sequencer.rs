use lorax::ctx::Ctx;
use lorax::ir::{Block, Counter};
use lorax::link::{LinkedList, LinkedNode};

fn ret_op() -> lorax::ir::Operation {
    lorax::dialect::x86::ret()
}

#[test]
fn append_keeps_order_and_ends() {
    let mut ctx = Ctx::new();
    let mut ids = Counter::new();
    let mut block = Block::new(&mut ids);
    assert!(block.head().is_none());
    assert!(block.tail().is_none());
    let p1 = block.append(&mut ctx, ret_op());
    let p2 = block.append(&mut ctx, ret_op());
    let p3 = block.append(&mut ctx, ret_op());
    assert_eq!(*block.head(), Some(p1));
    assert_eq!(*block.tail(), Some(p3));
    let order = block.iterate(&ctx);
    assert_eq!(order, vec![p1, p2, p3]);
    assert_eq!(block.get(p1, &ctx).ahead(), Some(p2));
    assert_eq!(block.get(p2, &ctx).ahead(), Some(p3));
    assert_eq!(block.get(p3, &ctx).ahead(), None);
    assert_eq!(block.get(p3, &ctx).behind(), Some(p2));
    assert_eq!(block.get(p1, &ctx).behind(), None);
}

#[test]
fn insert_behind_splices_before_anchor() {
    let mut ctx = Ctx::new();
    let mut ids = Counter::new();
    let mut block = Block::new(&mut ids);
    let p1 = block.append(&mut ctx, ret_op());
    let p2 = block.append(&mut ctx, ret_op());
    let x = block.insert_behind(&mut ctx, p2, ret_op());
    let order = block.iterate(&ctx);
    assert_eq!(order, vec![p1, x, p2]);
    assert_eq!(*block.head(), Some(p1));
    assert_eq!(*block.tail(), Some(p2));
}

#[test]
fn insert_before_head_takes_the_head_over() {
    let mut ctx = Ctx::new();
    let mut ids = Counter::new();
    let mut block = Block::new(&mut ids);
    let p1 = block.append(&mut ctx, ret_op());
    let p2 = block.append(&mut ctx, ret_op());
    let x = block.insert_behind(&mut ctx, p1, ret_op());
    let order = block.iterate(&ctx);
    assert_eq!(order, vec![x, p1, p2]);
    assert_eq!(*block.head(), Some(x));
}

#[test]
fn prepend_links_a_new_head() {
    let mut ctx = Ctx::new();
    let mut ids = Counter::new();
    let mut block = Block::new(&mut ids);
    let lone = block.prepend(&mut ctx, ret_op());
    assert_eq!(*block.head(), Some(lone));
    assert_eq!(*block.tail(), Some(lone));
    let front = block.prepend(&mut ctx, ret_op());
    assert_eq!(block.iterate(&ctx), vec![front, lone]);
}

#[test]
fn iter_walks_lazily() {
    let mut ctx = Ctx::new();
    let mut ids = Counter::new();
    let mut block = Block::new(&mut ids);
    let p1 = block.append(&mut ctx, ret_op());
    let p2 = block.append(&mut ctx, ret_op());
    let mut it = block.iter(&ctx);
    assert_eq!(it.next(), Some(p1));
    assert_eq!(it.next(), Some(p2));
    assert_eq!(it.next(), None);
    assert_eq!(it.next(), None);
}

#[test]
fn links_can_be_retargeted_through_the_node_trait() {
    let mut ctx = Ctx::new();
    let mut ids = Counter::new();
    let mut block = Block::new(&mut ids);
    let p1 = block.append(&mut ctx, ret_op());
    let op = lorax::ir::Block::get_mut(&block, p1, &mut ctx);
    *op.ahead_mut() = None;
    *op.behind_mut() = None;
    assert_eq!(block.get(p1, &ctx).ahead(), None);
    let _ = block.head_mut();
    let _ = block.tail_mut();
}
