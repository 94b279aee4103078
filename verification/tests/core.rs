use lorax::attr::{Attribute, AttributeMap};
use lorax::ctx::{Ctx, OperationId};
use lorax::ir::{Block, Counter, Value};
use lorax::pool::{Pool, Ptr};

#[test]
fn pool_handles_are_monotonic() {
    let mut pool: Pool<u64> = Pool::new();
    for i in 0..16usize {
        let p = pool.allocate(i as u64 * 3);
        assert_eq!(p, Ptr::new(i));
        assert_eq!(p.index(), i);
        assert_eq!(*pool.deref(p), i as u64 * 3);
    }
    assert_eq!(pool.len(), 16);
}

#[test]
fn pool_deref_mut_updates_in_place() {
    let mut pool: Pool<String> = Pool::with_capacity(4);
    let a = pool.allocate("left".to_string());
    let b = pool.allocate("right".to_string());
    *pool.deref_mut(a) = "changed".to_string();
    assert_eq!(pool.deref(a), "changed");
    assert_eq!(pool.deref(b), "right");
    assert_eq!(pool.iter().len(), 2);
    pool.reserve(10);
    assert_eq!(pool.len(), 2);
}

#[test]
fn ctx_allocation_is_monotonic() {
    let mut ctx = Ctx::new();
    let mut ids = Counter::new();
    let a = ctx.alloc_operation(lorax::dialect::x86::ret());
    let b = ctx.alloc_operation(lorax::dialect::x86::ret());
    assert_eq!(a, OperationId(0));
    assert_eq!(b, OperationId(1));
    let bl = ctx.alloc_block(Block::new(&mut ids));
    assert_eq!(bl.0, 0);
    assert_eq!(ctx.get_block(bl).len(), 0);
    assert_eq!(ctx.get_operation(a).name, "x86.ret");
}

#[test]
fn counters_hand_out_sequential_ids() {
    let mut ids = Counter::new();
    let v0 = Value::new(&mut ids, None);
    let v1 = Value::new(&mut ids, None);
    assert_eq!(v0.id, 0);
    assert_eq!(v1.id, 1);
    assert!(v0.def.is_none());
}

#[test]
fn attribute_map_binds_keys() {
    let mut map = AttributeMap::new();
    assert!(map.is_empty());
    map.insert("value".to_string(), Attribute::Int(7));
    assert!(!map.is_empty());
    assert_eq!(map.len(), 1);
    assert_eq!(map.entries()[0].1, Attribute::Int(7));
}

#[test]
fn operations_carry_attributes_and_results() {
    let mut ids = Counter::new();
    let mut op = lorax::dialect::arith::constant(&mut ids, 9);
    assert_eq!(op.attributes.len(), 1);
    assert!(op.result.is_some());
    op.add_attr("extra".to_string(), Attribute::Int(1));
    assert_eq!(op.attributes.len(), 2);
    let r = op.get_result();
    assert_eq!(r.id, 0);
    op.get_mut_result().id = 5;
    assert_eq!(op.get_result().id, 5);
    assert_eq!(op.walk_blocks().len(), 0);
    let mut body_ids = Counter::new();
    op.push_block(Block::new(&mut body_ids));
    assert_eq!(op.walk_blocks().len(), 1);
}
