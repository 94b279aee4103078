use lorax::ctx::Ctx;
use lorax::dialect::{arith, x86};
use lorax::ir::{Block, Counter, Value};
use lorax::render::{fmt_delimited_list, render_block, render_operation};

#[test]
fn operations_render_result_name_and_operands() {
    let mut ids = Counter::new();
    let src = Value::new(&mut ids, None);
    let dst = Value::new(&mut ids, None);
    let op = x86::mov(src, dst);
    assert_eq!(render_operation(&op), "%1 := x86.mov %0, %1");
    let op = x86::ret();
    assert_eq!(render_operation(&op), "x86.ret ");
    let op = x86::pushq(src);
    assert_eq!(render_operation(&op), "x86.pushq %0");
}

#[test]
fn constant_operations_render_their_attribute() {
    let mut ids = Counter::new();
    let op = arith::constant(&mut ids, 42);
    assert_eq!(render_operation(&op), "%0 := arith.constant  {value: 42}");
}

#[test]
fn blocks_render_labelled_program_order() {
    let mut ctx = Ctx::new();
    let mut ids = Counter::new();
    let mut block = Block::new(&mut ids);
    block.append(&mut ctx, x86::ret());
    let text = render_block(&block, &ctx);
    assert_eq!(text, ".bb0:\n    x86.ret \n");
}

#[test]
fn delimited_lists_join_with_commas() {
    let items = vec!["a".to_string(), "b".to_string(), "c".to_string()];
    assert_eq!(fmt_delimited_list(&items), "a, b, c");
    let one = vec!["solo".to_string()];
    assert_eq!(fmt_delimited_list(&one), "solo");
    let none: Vec<String> = Vec::new();
    assert_eq!(fmt_delimited_list(&none), "");
}

#[test]
fn header_round_trip_recovers_name_and_operands() {
    let mut ids = lorax::ir::Counter::new();
    let src = Value::new(&mut ids, None);
    let dst = Value::new(&mut ids, None);
    let rendered = render_operation(&x86::mov(src, dst));
    let header = lorax::render::parse_header(&rendered).unwrap();
    assert_eq!(header.result, Some(1));
    assert_eq!(header.name, "x86.mov");
    assert_eq!(header.operands, vec![0, 1]);

    let rendered = render_operation(&x86::ret());
    let header = lorax::render::parse_header(&rendered).unwrap();
    assert_eq!(header.result, None);
    assert_eq!(header.name, "x86.ret");
    assert!(header.operands.is_empty());

    let rendered = render_operation(&arith::constant(&mut ids, 42));
    let header = lorax::render::parse_header(&rendered).unwrap();
    assert_eq!(header.name, "arith.constant");
    assert!(header.operands.is_empty());
}
