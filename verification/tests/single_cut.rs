use barrier_cut::buffer::{DependencyGraph, GatherModulesToCut, GraphVisitor};
use barrier_cut::error::PassError;
use barrier_cut::builder::{PortInfo, SysBuilder};
use barrier_cut::ir::{BlockIntrinsic, DataType, Opcode};

/// `a = pop(x); b = a + a; barrier(b); c = b * 2; push(out, c)`, the push
/// made by hand (keys 5 to 9, the constant at key 4).
fn add_then_mul() -> SysBuilder {
    let mut sys = SysBuilder::new();
    sys.create_module("sink", vec![PortInfo::new("out", DataType::Int(32))]);
    let m = sys.create_module("adder", vec![PortInfo::new("x", DataType::Int(32))]);
    sys.set_current_module(m);
    let two = sys.create_int_imm(DataType::Int(32), 2);
    let a = sys.create_fifo_pop(3);
    let b = sys.create_add(a, a);
    sys.create_expr(
        Opcode::BlockIntrinsic { intrinsic: BlockIntrinsic::Barrier },
        vec![b],
        DataType::Void,
    );
    let c = sys.create_mul(b, two);
    sys.create_expr(Opcode::FIFOPush, vec![1, c], DataType::Void);
    sys
}

#[test]
fn every_operand_is_an_edge() {
    let sys = add_then_mul();
    let mut visitor = GraphVisitor::new();
    for k in sys.body(2) {
        assert_eq!(visitor.visit_expr(&sys, k), None);
    }
    let edges: Vec<(usize, usize)> =
        visitor.graph.adjacency().iter().map(|e| (e.mom, e.child)).collect();
    assert_eq!(edges, vec![(3, 5), (5, 6), (5, 6), (6, 7), (6, 8), (4, 8), (1, 9), (8, 9)]);
}

#[test]
fn cut_sorts_downstream_and_makes_the_buffered_module() {
    let mut sys = add_then_mul();
    let mut visitor = GraphVisitor::new();
    for k in sys.body(2) {
        visitor.visit_expr(&sys, k);
    }
    visitor.graph.rewrite(&mut sys, 6);
    let g = &visitor.graph;
    assert_eq!(g.buffered_nodes(), &vec![6, 4]);
    assert_eq!(g.buffered_expr(), &vec![7, 8]);
    assert_eq!(g.moved_expr(), &vec![9]);
    let m = sys.get_module("barrier_module").unwrap();
    assert_eq!(m, 10);
    assert_eq!(sys.ports(m), vec![11, 12]);
    assert_eq!(sys.fifo_name(11), "buffered_6");
    assert_eq!(sys.fifo_name(12), "buffered_4");
    assert_eq!(sys.dtype(11), DataType::Int(32));
    assert!(sys.body(m).is_empty());
    // the cursor and the source module stay as they were
    assert_eq!(sys.current_module(), 2);
    assert_eq!(sys.body(2), vec![5, 6, 7, 8, 9]);
}

#[test]
fn buffered_module_of_an_empty_graph_has_no_port() {
    let mut sys = SysBuilder::new();
    let mut g = DependencyGraph::default();
    g.rewrite_modules(&mut sys);
    assert_eq!(sys.get_module("barrier_module"), Some(0));
    assert!(sys.ports(0).is_empty());
    let mut h = DependencyGraph::new();
    h.rewrite(&mut sys, 5);
    assert_eq!(h.buffered_nodes(), &vec![5]);
    assert!(h.buffered_expr().is_empty());
    assert_eq!(sys.ports(1), vec![2]);
    assert_eq!(sys.fifo_name(2), "buffered_5");
}

fn barrier(sys: &mut SysBuilder, v: usize) -> usize {
    sys.create_expr(
        Opcode::BlockIntrinsic { intrinsic: BlockIntrinsic::Barrier },
        vec![v],
        DataType::Void,
    )
}

#[test]
fn driver_makes_the_buffered_module_at_the_marker() {
    let mut sys = add_then_mul();
    let mut pass = GatherModulesToCut::new();
    assert_eq!(pass.enter(&mut sys), Ok(()));
    assert_eq!(sys.len(), 13);
    assert_eq!(sys.get_module("barrier_module"), Some(10));
    assert_eq!(sys.ports(10), vec![11, 12]);
    assert_eq!(sys.fifo_name(11), "buffered_6");
    assert_eq!(sys.fifo_name(12), "buffered_4");
    assert_eq!(sys.body(2), vec![5, 6, 7, 8, 9]);
}

#[test]
fn second_marker_of_a_module_cuts_an_empty_graph() {
    let mut sys = add_then_mul();
    let c = sys.body(2)[3];
    let d = sys.create_add(c, c);
    barrier(&mut sys, d);
    let len = sys.len();
    assert_eq!(GatherModulesToCut::new().enter(&mut sys), Ok(()));
    // the first marker's module, with the values that cross at key 6
    assert_eq!(sys.ports(len).len(), 2);
    // the second marker's: the barrier value alone
    let second = len + 3;
    assert_eq!(sys.module_name(second), "barrier_module");
    let ports = sys.ports(second);
    assert_eq!(ports.len(), 1);
    assert_eq!(sys.fifo_name(ports[0]), format!("buffered_{}", d));
    assert_eq!(sys.len(), second + 2);
}

#[test]
fn driver_leaves_test_harnesses_alone() {
    for name in ["driver", "testbench"] {
        let mut sys = SysBuilder::new();
        let m = sys.create_module(name, vec![PortInfo::new("x", DataType::Int(32))]);
        sys.set_current_module(m);
        let a = sys.create_fifo_pop(1);
        barrier(&mut sys, a);
        let len = sys.len();
        assert_eq!(GatherModulesToCut::new().enter(&mut sys), Ok(()));
        assert_eq!(sys.len(), len);
        assert_eq!(sys.get_module("barrier_module"), None);
    }
}

#[test]
fn driver_without_a_marker_changes_nothing() {
    let mut sys = SysBuilder::new();
    let m = sys.create_module("plain", vec![PortInfo::new("x", DataType::Int(32))]);
    sys.set_current_module(m);
    let a = sys.create_fifo_pop(1);
    sys.create_add(a, a);
    assert_eq!(GatherModulesToCut::new().enter(&mut sys), Ok(()));
    assert_eq!(sys.len(), 4);
}

#[test]
fn edge_back_from_a_push_to_its_bind_stops_the_single_cut() {
    let mut sys = SysBuilder::new();
    sys.create_module("sink", vec![PortInfo::new("out", DataType::Int(32))]);
    let m = sys.create_module("caller", vec![PortInfo::new("x", DataType::Int(32))]);
    sys.set_current_module(m);
    let a = sys.create_fifo_pop(3);
    barrier(&mut sys, a);
    let bind = sys.get_init_bind(0);
    let push = sys.bind_arg(bind, "out", a).unwrap();
    assert!(push > bind);
    sys.create_async_call(bind);
    let len = sys.len();
    let mut visitor = GraphVisitor::new();
    visitor.visit_module(&sys, m);
    assert!(!visitor.graph.is_well_formed(&sys));
    assert_eq!(GatherModulesToCut::new().enter(&mut sys), Err(PassError::BackwardEdge));
    assert_eq!(sys.len(), len);
    assert_eq!(sys.get_module("barrier_module"), None);
}
