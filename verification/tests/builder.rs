use barrier_cut::builder::{PortInfo, SysBuilder};
use barrier_cut::ir::{Binary, BlockIntrinsic, Cast, DataType, NodeKind, Opcode, PureIntrinsic};

fn two_modules() -> SysBuilder {
    let mut sys = SysBuilder::new();
    let callee = sys.create_module(
        "callee",
        vec![PortInfo::new("p", DataType::UInt(8)), PortInfo::new("q", DataType::Bits(4))],
    );
    let caller = sys.create_module("caller", vec![PortInfo::new("x", DataType::Int(32))]);
    assert_eq!((callee, caller), (0, 3));
    sys
}

#[test]
fn modules_and_ports_get_consecutive_keys() {
    let sys = two_modules();
    assert_eq!(sys.len(), 5);
    assert_eq!(sys.kind(0), Some(NodeKind::Module));
    assert_eq!(sys.kind(1), Some(NodeKind::FIFO));
    assert_eq!(sys.kind(2), Some(NodeKind::FIFO));
    assert_eq!(sys.kind(3), Some(NodeKind::Module));
    assert_eq!(sys.kind(5), None);
    assert_eq!(sys.ports(0), vec![1, 2]);
    assert_eq!(sys.port_count(3), 1);
    assert_eq!(sys.port_at(3, 0), 4);
    assert_eq!(sys.fifo_name(2), "q");
    assert_eq!(sys.fifo_module(2), 0);
    assert_eq!(sys.dtype(2), DataType::Bits(4));
    assert_eq!(sys.dtype(0), DataType::Void);
    assert_eq!(sys.module_name(3), "caller");
    assert!(sys.body(3).is_empty());
    assert!(sys.is_module(3) && sys.is_fifo(4) && !sys.is_expr(4) && !sys.is_module(9));
}

#[test]
fn lookups_by_name_find_the_first() {
    let mut sys = two_modules();
    let again = sys.create_module("callee", vec![PortInfo::new("p", DataType::Int(1))]);
    assert_eq!(again, 5);
    assert_eq!(sys.get_module("callee"), Some(0));
    assert_eq!(sys.get_module("caller"), Some(3));
    assert_eq!(sys.get_module("nobody"), None);
    assert_eq!(sys.get_fifo(0, "q"), Some(2));
    assert_eq!(sys.get_fifo(0, "x"), None);
    assert_eq!(sys.get_fifo(5, "p"), Some(6));
}

#[test]
fn expressions_are_appended_to_the_current_module() {
    let mut sys = two_modules();
    sys.set_current_module(3);
    assert_eq!(sys.current_module(), 3);
    let imm = sys.create_int_imm(DataType::Int(16), 9);
    let a = sys.create_fifo_pop(4);
    let v = sys.create_fifo_valid(4);
    let w = sys.create_wait_until(v);
    let s = sys.create_add(a, imm);
    let d = sys.create_sub(s, a);
    let m = sys.create_mul(d, d);
    let n = sys.create_bitwise_and(m, a);
    let c = sys.create_bitcast(n, DataType::UInt(32));
    let sl = sys.create_slice(c, imm, imm);
    assert_eq!((imm, a, v, w, s, d, m, n, c, sl), (5, 6, 7, 8, 9, 10, 11, 12, 13, 14));
    assert_eq!(sys.body(3), vec![6, 7, 8, 9, 10, 11, 12, 13, 14]);
    assert_eq!(sys.body_len(3), 9);
    assert_eq!(sys.body_at(3, 1), 7);
    assert_eq!(sys.imm_value(imm), 9);
    assert_eq!(sys.kind(imm), Some(NodeKind::IntImm));
    assert_eq!(sys.opcode(a), Opcode::FIFOPop);
    assert_eq!(sys.dtype(a), DataType::Int(32));
    assert_eq!(sys.opcode(v), Opcode::PureIntrinsic { intrinsic: PureIntrinsic::FIFOValid });
    assert_eq!(sys.dtype(v), DataType::UInt(1));
    assert_eq!(sys.opcode(w), Opcode::BlockIntrinsic { intrinsic: BlockIntrinsic::WaitUntil });
    assert_eq!(sys.dtype(w), DataType::Void);
    assert_eq!(sys.opcode(s), Opcode::Binary { binop: Binary::Add });
    assert_eq!(sys.operands(s), vec![a, imm]);
    assert_eq!(sys.dtype(s), DataType::Int(32));
    assert_eq!(sys.opcode(d), Opcode::Binary { binop: Binary::Sub });
    assert_eq!(sys.opcode(m), Opcode::Binary { binop: Binary::Mul });
    assert_eq!(sys.opcode(n), Opcode::Binary { binop: Binary::BitwiseAnd });
    assert_eq!(sys.opcode(c), Opcode::Cast { cast: Cast::BitCast });
    assert_eq!(sys.dtype(c), DataType::UInt(32));
    assert_eq!(sys.opcode(sl), Opcode::Slice);
    assert_eq!(sys.operands(sl), vec![c, imm, imm]);
    assert_eq!(sys.operand_count(sl), 3);
    assert_eq!(sys.operand(sl, 0), c);
    assert_eq!(sys.dtype(sl), DataType::UInt(32));
    assert_eq!(sys.parent(sl), 3);
    assert!(sys.body(0).is_empty());
}

#[test]
fn binding_pushes_to_the_named_port() {
    let mut sys = two_modules();
    sys.set_current_module(3);
    let a = sys.create_fifo_pop(4);
    let bind = sys.get_init_bind(0);
    assert_eq!(sys.operands(bind), vec![0]);
    let first = sys.bind_arg(bind, "q", a);
    assert_eq!(first, Some(7));
    assert_eq!(sys.operands(7), vec![2, a]);
    assert_eq!(sys.opcode(7), Opcode::FIFOPush);
    let before = sys.len();
    assert_eq!(sys.bind_arg(bind, "nowhere", a), None);
    assert_eq!(sys.len(), before);
    let second = sys.bind_port(bind, 1, a);
    assert_eq!(second, 8);
    assert_eq!(sys.operands(bind), vec![0, 7, 8]);
    let call = sys.create_async_call(bind);
    assert_eq!(sys.opcode(call), Opcode::AsyncCall);
    assert_eq!(sys.operands(call), vec![bind]);
    assert_eq!(sys.body(3), vec![5, 6, 7, 8, 9]);
}

#[test]
fn bind_to_what_is_no_module_binds_nothing() {
    let mut sys = two_modules();
    sys.set_current_module(3);
    let a = sys.create_fifo_pop(4);
    let bind = sys.create_expr(Opcode::Bind, vec![a], DataType::Void);
    let before = sys.len();
    assert_eq!(sys.bind_arg(bind, "p", a), None);
    assert_eq!(sys.len(), before);
}

#[test]
fn erasing_takes_an_expression_out_of_its_body_only() {
    let mut sys = two_modules();
    sys.set_current_module(3);
    let a = sys.create_fifo_pop(4);
    let b = sys.create_add(a, a);
    let c = sys.create_mul(b, b);
    sys.erase_from_parent(b);
    assert_eq!(sys.body(3), vec![a, c]);
    assert_eq!(sys.len(), 8);
    assert_eq!(sys.opcode(b), Opcode::Binary { binop: Binary::Add });
    assert_eq!(sys.operands(c), vec![b, b]);
    // erasing again, or erasing what is no expression, changes nothing
    sys.erase_from_parent(b);
    sys.erase_from_parent(4);
    sys.erase_from_parent(99);
    assert_eq!(sys.body(3), vec![a, c]);
    sys.erase_from_parent(a);
    sys.erase_from_parent(c);
    assert!(sys.body(3).is_empty());
}

#[test]
fn port_info_keeps_name_and_type() {
    let p = PortInfo::new("buffered_3", DataType::Int(32));
    assert_eq!(p.name, "buffered_3");
    assert_eq!(p.dtype, DataType::Int(32));
}

#[test]
fn call_index_lists_the_binds_of_each_callee() {
    let mut sys = two_modules();
    let other = sys.create_module("other", vec![]);
    assert_eq!(other, 5);
    sys.set_current_module(3);
    let a = sys.create_fifo_pop(4);
    let b0 = sys.get_init_bind(0);
    let b1 = sys.get_init_bind(other);
    sys.set_current_module(other);
    let b2 = sys.get_init_bind(0);
    let b3 = sys.get_init_bind(0);
    sys.erase_from_parent(b3);
    assert_eq!((a, b0, b1, b2, b3), (6, 7, 8, 9, 10));
    let index = barrier_cut::callers::find_module_with_callers(&sys);
    let seen: Vec<(usize, Vec<usize>)> =
        index.iter().map(|c| (c.callee, c.binds.clone())).collect();
    // the caller itself is never called; the erased bind does not count
    assert_eq!(seen, vec![(0, vec![7, 9]), (5, vec![8])]);
    assert!(barrier_cut::callers::find_module_with_callers(&SysBuilder::new()).is_empty());
}
