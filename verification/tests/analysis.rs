use barrier_cut::builder::{PortInfo, SysBuilder};
use barrier_cut::discovery::{analyze, GatherModulesToCut};
use barrier_cut::error::PassError;
use barrier_cut::graph::{DependencyGraph, GraphVisitor};
use barrier_cut::ir::{BlockIntrinsic, DataType, Opcode};
use barrier_cut::levels::NodeData;
use barrier_cut::stage::{StageTable, SubModule, SubModuleContainer};

fn barrier(sys: &mut SysBuilder, value: usize) -> usize {
    sys.create_expr(
        Opcode::BlockIntrinsic { intrinsic: BlockIntrinsic::Barrier },
        vec![value],
        DataType::Void,
    )
}

/// `a = pop(x); b = a + a; barrier(b); c = b * 2; push(out, c)` in module 2.
fn add_then_mul() -> SysBuilder {
    let mut sys = SysBuilder::new();
    sys.create_module("sink", vec![PortInfo::new("out", DataType::Int(32))]);
    let m = sys.create_module("adder", vec![PortInfo::new("x", DataType::Int(32))]);
    sys.set_current_module(m);
    let two = sys.create_int_imm(DataType::Int(32), 2);
    let a = sys.create_fifo_pop(3);
    let b = sys.create_add(a, a);
    barrier(&mut sys, b);
    let c = sys.create_mul(b, two);
    let bind = sys.get_init_bind(0);
    sys.bind_arg(bind, "out", c).unwrap();
    sys.create_async_call(bind);
    sys
}

fn edges(graph: &DependencyGraph) -> Vec<(usize, usize)> {
    graph.adjacency().iter().map(|e| (e.mom, e.child)).collect()
}

#[test]
fn visitor_sorts_the_expressions_of_a_body() {
    let sys = add_then_mul();
    let mut visitor = GraphVisitor::new(&sys);
    assert_eq!(visitor.visit_module(2), None);
    let g = &visitor.graph;
    assert_eq!(edges(g), vec![(3, 5), (5, 6), (5, 6), (6, 8), (4, 8)]);
    assert_eq!(g.barrier_list(), &vec![6]);
    assert_eq!(g.barrier_expr(), &vec![7]);
    assert_eq!(g.caller_expr(), &vec![9, 10, 11]);
    assert_eq!(g.expr_hashmap(), &vec![5, 6, 8, 10]);
    assert_eq!(g.module_ports(), &vec![5]);
    assert_eq!(g.module_outputs(), &vec![8]);
    assert_eq!(g.cut_count(), 0);
}

#[test]
fn visitor_takes_one_expression_at_a_time() {
    let mut sys = SysBuilder::new();
    let m = sys.create_module("m", vec![PortInfo::new("x", DataType::Int(8))]);
    sys.set_current_module(m);
    let lo = sys.create_int_imm(DataType::Int(8), 1);
    let a = sys.create_fifo_pop(1);
    let s = sys.create_slice(a, lo, lo);
    let st = sys.create_expr(Opcode::Store, vec![a, s], DataType::Void);
    let ld = sys.create_expr(Opcode::Load, vec![a], DataType::Int(8));
    let mut visitor = GraphVisitor::new(&sys);
    assert_eq!(visitor.visit_expr(s), None);
    // a slice depends on its base alone
    assert_eq!(edges(&visitor.graph), vec![(a, s)]);
    visitor.visit_expr(st);
    // a store is an output and adds no edge
    assert_eq!(edges(&visitor.graph), vec![(a, s)]);
    assert_eq!(visitor.graph.module_outputs(), &vec![s]);
    assert!(visitor.graph.caller_expr().is_empty());
    visitor.visit_expr(ld);
    assert_eq!(edges(&visitor.graph), vec![(a, s), (a, ld)]);
    assert_eq!(visitor.graph.module_ports(), &vec![ld]);
}

#[test]
fn barrier_levels_carry_what_downstream_needs() {
    let sys = add_then_mul();
    let mut visitor = GraphVisitor::new(&sys);
    visitor.visit_module(2);
    visitor.graph.gather_barrier_level(&sys);
    assert_eq!(visitor.graph.cut_count(), 1);
    assert_eq!(visitor.graph.cut_key(0), 6);
    // the barrier value first, then the constant that the multiply needs
    assert_eq!(visitor.graph.cut_ports(0), &vec![6, 4]);
    // a second run finds every barrier value carried already
    visitor.graph.gather_barrier_level(&sys);
    assert_eq!(visitor.graph.cut_count(), 1);
}

#[test]
fn submodules_follow_the_walk_from_the_inputs() {
    let sys = add_then_mul();
    let mut visitor = GraphVisitor::new(&sys);
    visitor.visit_module(2);
    visitor.graph.gather_barrier_level(&sys);
    assert_eq!(visitor.graph.gather_submodules(&sys), Ok(()));
    let g = &visitor.graph;
    // the first stage has the first input as its key, the second its cut's
    assert_eq!(g.submodule_order(), &vec![5, 6]);
    let table = g.submodule_map();
    assert_eq!(table.len(), 2);
    let first = table.get(5).unwrap();
    assert_eq!(first.buffered_ports(), &vec![5]);
    assert_eq!(first.buffered_barriers(), &vec![6, 4]);
    assert_eq!(first.buffered_expr(), &vec![5, 6]);
    let second = table.get(6).unwrap();
    assert_eq!(second.buffered_ports(), &vec![6, 4]);
    assert_eq!(second.buffered_barriers(), &vec![8]);
    assert_eq!(second.buffered_expr(), &vec![8]);
    assert!(table.get(0).is_none());
    assert!(table.get(1).is_none());
}

#[test]
fn graph_built_by_hand() {
    let mut sys = SysBuilder::new();
    let m = sys.create_module("m", vec![]);
    sys.set_current_module(m);
    for _ in 0..6 {
        sys.create_expr(Opcode::Log, vec![], DataType::Void);
    }
    let mut g = DependencyGraph::new();
    g.set_current_module_name("m".to_string());
    g.add_edge(1, 2);
    g.add_edge(2, 3);
    g.add_edge(2, 4);
    assert_eq!(edges(&g), vec![(1, 2), (2, 3), (2, 4)]);
    assert!(g.is_well_formed(&sys));
    // no barrier values and no inputs: nothing to gather
    g.gather_barrier_level(&sys);
    assert_eq!(g.cut_count(), 0);
    assert_eq!(g.gather_submodules(&sys), Ok(()));
    assert_eq!(g.submodule_map().len(), 0);
    assert!(g.submodule_order().is_empty());
    g.add_edge(4, 2);
    assert!(!g.is_well_formed(&sys));
    let d = DependencyGraph::default();
    assert!(d.adjacency().is_empty());
    let e = NodeData { mom: 1, child: 2 };
    assert_eq!(e, g.adjacency()[0]);
}

#[test]
fn analysis_of_a_module_fills_its_container() {
    let sys = add_then_mul();
    let c = analyze(&sys, 2).unwrap();
    assert_eq!(c.module_name(), "adder");
    assert_eq!(c.sub_module_order(), &vec![5, 6]);
    assert_eq!(c.caller_expr(), &vec![9, 10, 11]);
    assert_eq!(c.barrier_expr(), &vec![7]);
    assert_eq!(c.sub_module_map().len(), 2);
    assert_eq!(c.stage_at(0).unwrap().buffered_barriers(), &vec![6, 4]);
    assert_eq!(c.stage_at(1).unwrap().buffered_ports(), &vec![6, 4]);
    assert!(c.stage_at(2).is_none());
}

#[test]
fn discovery_flags_modules_with_a_barrier() {
    let mut sys = add_then_mul();
    let plain = sys.create_module("plain", vec![PortInfo::new("y", DataType::Int(32))]);
    sys.set_current_module(plain);
    let a = sys.create_fifo_pop(plain + 1);
    sys.create_add(a, a);
    let mut gather = GatherModulesToCut::new(&sys);
    assert_eq!(gather.visit_module(plain), None);
    assert_eq!(gather.visit_expr(7), None);
    assert_eq!(gather.enter(&sys), Ok(()));
    let map = gather.submodule_container_map();
    assert_eq!(map.len(), 1);
    assert!(map.contains_key(&2));
    assert_eq!(map[&2].module_name(), "adder");
}

#[test]
fn discovery_fails_with_the_walk() {
    let mut sys = SysBuilder::new();
    let sink = sys.create_module(
        "sink",
        vec![PortInfo::new("out", DataType::Int(32)), PortInfo::new("out2", DataType::Int(32))],
    );
    let m = sys.create_module("fragile", vec![PortInfo::new("x", DataType::Int(32))]);
    sys.set_current_module(m);
    let a = sys.create_fifo_pop(4);
    let o = sys.create_add(a, a);
    let b = sys.create_mul(a, a);
    barrier(&mut sys, b);
    sys.create_sub(b, b);
    let bind = sys.get_init_bind(sink);
    sys.bind_arg(bind, "out", o).unwrap();
    sys.bind_arg(bind, "out2", b).unwrap();
    sys.create_async_call(bind);
    assert_eq!(analyze(&sys, m).err(), Some(PassError::MissingStage));
    let mut gather = GatherModulesToCut::new(&sys);
    assert_eq!(gather.enter(&sys), Err(PassError::MissingStage));
    assert!(gather.submodule_container_map().is_empty());
}

#[test]
fn stage_table_finds_stages_by_key() {
    let mut table = StageTable::new();
    assert_eq!(table.len(), 0);
    assert_eq!(table.find(3), 0);
    table.put(3, SubModule::new(vec![3, 1]));
    table.put(8, SubModule::new(vec![8]));
    assert_eq!((table.len(), table.find(3), table.find(8), table.find(9)), (2, 0, 1, 2));
    assert_eq!(table.key_at(1), 8);
    table.close_at(0, vec![8]);
    table.join_at(0, 4);
    table.join_at(0, 5);
    table.join_at(0, 4);
    assert_eq!(table.at(0).buffered_ports(), &vec![3, 1]);
    assert_eq!(table.at(0).buffered_barriers(), &vec![8]);
    assert_eq!(table.at(0).buffered_expr(), &vec![4, 5]);
    // a key that is put again starts over
    table.put(3, SubModule::new(vec![7]));
    assert_eq!(table.len(), 2);
    assert_eq!(table.get(3).unwrap().buffered_ports(), &vec![7]);
    assert!(table.get(3).unwrap().buffered_expr().is_empty());
    let copy = table.copy();
    assert_eq!(copy.len(), 2);
    assert_eq!(copy.get(8).unwrap().copy().buffered_ports(), &vec![8]);
}

#[test]
fn containers_can_be_assembled() {
    let c = SubModuleContainer::new("m".to_string());
    assert_eq!(c.module_name(), "m");
    assert!(c.sub_module_order().is_empty());
    assert!(c.stage_at(0).is_none());
    let mut table = StageTable::new();
    table.put(2, SubModule::new(vec![2]));
    let c = SubModuleContainer::assemble("n".to_string(), table, vec![2, 9], vec![5], vec![6]);
    assert_eq!(c.stage_at(0).unwrap().buffered_ports(), &vec![2]);
    assert!(c.stage_at(1).is_none());
    assert_eq!(c.caller_expr(), &vec![5]);
    assert_eq!(c.barrier_expr(), &vec![6]);
}

#[test]
fn failed_walk_leaves_the_stages_as_it_had_them() {
    let mut sys = SysBuilder::new();
    let sink = sys.create_module(
        "sink",
        vec![PortInfo::new("out", DataType::Int(32)), PortInfo::new("out2", DataType::Int(32))],
    );
    let m = sys.create_module("fragile", vec![PortInfo::new("x", DataType::Int(32))]);
    sys.set_current_module(m);
    let a = sys.create_fifo_pop(4);
    let o = sys.create_add(a, a);
    let b = sys.create_mul(a, a);
    barrier(&mut sys, b);
    sys.create_sub(b, b);
    let bind = sys.get_init_bind(sink);
    sys.bind_arg(bind, "out", o).unwrap();
    sys.bind_arg(bind, "out2", b).unwrap();
    sys.create_async_call(bind);
    assert_eq!((a, o, b), (5, 6, 7));
    let mut visitor = GraphVisitor::new(&sys);
    visitor.visit_module(m);
    visitor.graph.gather_barrier_level(&sys);
    assert_eq!(visitor.graph.gather_submodules(&sys), Err(PassError::MissingStage));
    // the walk gave up below the barrier value, one level above the only stage
    assert_eq!(visitor.graph.submodule_order(), &vec![5]);
    let stage = visitor.graph.submodule_map().get(5).unwrap();
    assert_eq!(stage.buffered_ports(), &vec![5]);
    assert_eq!(stage.buffered_barriers(), &vec![6, 7]);
    assert_eq!(stage.buffered_expr(), &vec![5, 6, 7]);
}

#[test]
fn barrier_on_the_first_input_finds_its_key_taken() {
    let mut sys = SysBuilder::new();
    sys.create_module("sink", vec![PortInfo::new("out", DataType::Int(32))]);
    let m = sys.create_module(
        "eager",
        vec![PortInfo::new("x", DataType::Int(32)), PortInfo::new("y", DataType::Int(32))],
    );
    sys.set_current_module(m);
    let a = sys.create_fifo_pop(3);
    let a2 = sys.create_fifo_pop(4);
    barrier(&mut sys, a);
    let c = sys.create_add(a, a2);
    let bind = sys.get_init_bind(0);
    sys.bind_arg(bind, "out", c).unwrap();
    sys.create_async_call(bind);
    assert_eq!((a, a2, c), (5, 6, 8));
    let mut visitor = GraphVisitor::new(&sys);
    visitor.visit_module(m);
    visitor.graph.gather_barrier_level(&sys);
    assert_eq!(visitor.graph.cut_key(0), 5);
    // the stage at level 0 has the key 5, and so would the stage of the cut
    assert_eq!(visitor.graph.gather_submodules(&sys), Err(PassError::StageTaken));
    assert_eq!(visitor.graph.submodule_order(), &vec![5]);
    let stage = visitor.graph.submodule_map().get(5).unwrap();
    assert_eq!(stage.buffered_ports(), &vec![5, 6]);
    assert!(stage.buffered_barriers().is_empty());
    assert!(stage.buffered_expr().is_empty());
    assert_eq!(analyze(&sys, m).err(), Some(PassError::StageTaken));
}

#[test]
fn barrier_on_a_later_input_opens_a_stage() {
    let mut sys = SysBuilder::new();
    sys.create_module("sink", vec![PortInfo::new("out", DataType::Int(32))]);
    let m = sys.create_module(
        "eager",
        vec![PortInfo::new("x", DataType::Int(32)), PortInfo::new("y", DataType::Int(32))],
    );
    sys.set_current_module(m);
    let a = sys.create_fifo_pop(3);
    let a2 = sys.create_fifo_pop(4);
    barrier(&mut sys, a2);
    let c = sys.create_add(a2, a2);
    let bind = sys.get_init_bind(0);
    sys.bind_arg(bind, "out", c).unwrap();
    sys.create_async_call(bind);
    assert_eq!((a, a2, c), (5, 6, 8));
    let container = analyze(&sys, m).unwrap();
    assert_eq!(container.sub_module_order(), &vec![5, 6]);
    let first = container.stage_at(0).unwrap();
    assert_eq!(first.buffered_ports(), &vec![5, 6]);
    assert_eq!(first.buffered_barriers(), &vec![6]);
    assert_eq!(first.buffered_expr(), &vec![5, 6]);
    let second = container.stage_at(1).unwrap();
    assert_eq!(second.buffered_ports(), &vec![6]);
    assert_eq!(second.buffered_barriers(), &vec![8]);
    assert_eq!(second.buffered_expr(), &vec![8]);
}

#[test]
fn value_of_an_open_stage_s_own_cut_finds_the_key_taken() {
    let mut sys = SysBuilder::new();
    sys.create_module("sink", vec![PortInfo::new("out", DataType::Int(32))]);
    let m = sys.create_module("again", vec![PortInfo::new("x", DataType::Int(32))]);
    sys.set_current_module(m);
    let a = sys.create_fifo_pop(3);
    let b = sys.create_add(a, a);
    barrier(&mut sys, b);
    let p = sys.create_sub(b, b);
    let n = sys.create_add(b, p);
    let bind = sys.get_init_bind(0);
    sys.bind_arg(bind, "out", n).unwrap();
    sys.create_async_call(bind);
    assert_eq!((a, b, p, n), (4, 5, 7, 8));
    let mut visitor = GraphVisitor::new(&sys);
    visitor.visit_module(m);
    visitor.graph.gather_barrier_level(&sys);
    // on the path from 5 straight to 8, 7 is needed from outside the path
    assert_eq!(visitor.graph.cut_ports(0), &vec![5, 7]);
    // 7 is reached in the stage of the cut while that stage is open
    assert_eq!(visitor.graph.gather_submodules(&sys), Err(PassError::StageTaken));
    assert_eq!(visitor.graph.submodule_order(), &vec![4, 5]);
    let table = visitor.graph.submodule_map();
    assert_eq!(table.get(4).unwrap().buffered_barriers(), &vec![5, 7]);
    assert_eq!(table.get(4).unwrap().buffered_expr(), &vec![4, 5]);
    assert_eq!(table.get(5).unwrap().buffered_ports(), &vec![5, 7]);
    assert!(table.get(5).unwrap().buffered_barriers().is_empty());
}

/// A chain of adds from one pop, with a barrier marker behind each of the
/// values at the given places, and the last value handed to the sink.
fn chain(len: usize, cuts: &[usize]) -> (SysBuilder, Vec<usize>) {
    let mut sys = SysBuilder::new();
    sys.create_module("sink", vec![PortInfo::new("out", DataType::Int(32))]);
    let m = sys.create_module("chain", vec![PortInfo::new("x", DataType::Int(32))]);
    sys.set_current_module(m);
    let mut keys = vec![sys.create_fifo_pop(3)];
    for i in 1..len {
        let last = keys[i - 1];
        if cuts.contains(&(i - 1)) {
            barrier(&mut sys, last);
        }
        keys.push(sys.create_add(last, last));
    }
    let bind = sys.get_init_bind(0);
    sys.bind_arg(bind, "out", keys[len - 1]).unwrap();
    sys.create_async_call(bind);
    (sys, keys)
}

#[test]
fn chain_with_one_cut_has_the_input_and_the_barrier_value_as_keys() {
    let (sys, k) = chain(3, &[1]);
    let mut visitor = GraphVisitor::new(&sys);
    visitor.visit_module(2);
    visitor.graph.gather_barrier_level(&sys);
    assert_eq!(visitor.graph.gather_submodules(&sys), Ok(()));
    let g = &visitor.graph;
    assert_eq!(g.submodule_order(), &vec![k[0], k[1]]);
    let table = g.submodule_map();
    assert_eq!(table.len(), 2);
    assert_eq!((table.key_at(0), table.key_at(1)), (k[0], k[1]));
    let first = table.get(k[0]).unwrap();
    assert_eq!(first.buffered_ports(), &vec![k[0]]);
    assert_eq!(first.buffered_barriers(), &vec![k[1]]);
    assert_eq!(first.buffered_expr(), &vec![k[0], k[1]]);
    let second = table.get(k[1]).unwrap();
    assert_eq!(second.buffered_ports(), &vec![k[1]]);
    assert_eq!(second.buffered_barriers(), &vec![k[2]]);
    assert_eq!(second.buffered_expr(), &vec![k[2]]);
}

#[test]
fn chain_with_two_cuts_has_three_stages() {
    let (sys, k) = chain(5, &[1, 3]);
    let c = analyze(&sys, 2).unwrap();
    assert_eq!(c.sub_module_order(), &vec![k[0], k[1], k[3]]);
    let table = c.sub_module_map();
    assert_eq!(table.len(), 3);
    let stages: Vec<(Vec<usize>, Vec<usize>, Vec<usize>)> = [k[0], k[1], k[3]]
        .iter()
        .map(|key| {
            let s = table.get(*key).unwrap();
            (s.buffered_ports().clone(), s.buffered_barriers().clone(), s.buffered_expr().clone())
        })
        .collect();
    assert_eq!(
        stages,
        vec![
            (vec![k[0]], vec![k[1]], vec![k[0], k[1]]),
            (vec![k[1]], vec![k[3]], vec![k[2], k[3]]),
            (vec![k[3]], vec![k[4]], vec![k[4]]),
        ]
    );
}

#[test]
fn barrier_values_without_an_input_are_an_error() {
    let mut sys = SysBuilder::new();
    let m = sys.create_module("blind", vec![]);
    sys.set_current_module(m);
    let k = sys.create_int_imm(DataType::Int(32), 1);
    let b = sys.create_add(k, k);
    barrier(&mut sys, b);
    let mut visitor = GraphVisitor::new(&sys);
    visitor.visit_module(m);
    visitor.graph.gather_barrier_level(&sys);
    assert_eq!(visitor.graph.gather_submodules(&sys), Err(PassError::MissingInput));
    assert_eq!(visitor.graph.submodule_map().len(), 0);
    assert_eq!(analyze(&sys, m).err(), Some(PassError::MissingInput));
}

#[test]
fn node_that_is_not_recorded_dangles() {
    let mut sys = SysBuilder::new();
    let m = sys.create_module("m", vec![PortInfo::new("x", DataType::Int(32))]);
    sys.set_current_module(m);
    let a = sys.create_fifo_pop(1);
    let b = sys.create_add(a, a);
    let mut visitor = GraphVisitor::new(&sys);
    visitor.visit_expr(a);
    // the edge leads to an expression that the visitor has not seen
    visitor.graph.add_edge(a, b);
    assert_eq!(visitor.graph.gather_submodules(&sys), Err(PassError::DanglingKey));
    let stage = visitor.graph.submodule_map().get(a).unwrap();
    assert_eq!(stage.buffered_expr(), &vec![a]);
}

#[test]
fn operands_of_a_node_that_is_not_recorded_do_not_cross() {
    let mut sys = SysBuilder::new();
    let m = sys.create_module("m", vec![PortInfo::new("x", DataType::Int(32))]);
    sys.set_current_module(m);
    let p = sys.create_int_imm(DataType::Int(32), 3);
    let a = sys.create_fifo_pop(1);
    let b = sys.create_add(a, a);
    let bar = barrier(&mut sys, b);
    let n = sys.create_add(b, p);
    let mut visitor = GraphVisitor::new(&sys);
    visitor.visit_expr(a);
    visitor.visit_expr(b);
    visitor.visit_expr(bar);
    visitor.graph.add_edge(b, n);
    visitor.graph.gather_barrier_level(&sys);
    assert_eq!(visitor.graph.cut_ports(0), &vec![b]);
    // once the node is recorded, its other operand crosses the cut
    let mut visitor = GraphVisitor::new(&sys);
    visitor.visit_module(m);
    visitor.graph.gather_barrier_level(&sys);
    assert_eq!(visitor.graph.cut_ports(0), &vec![b, p]);
}

#[test]
fn level_falls_below_a_port_that_is_reached_late() {
    let mut sys = SysBuilder::new();
    sys.create_module("sink", vec![PortInfo::new("out", DataType::Int(32))]);
    let m = sys.create_module("fragile", vec![PortInfo::new("x", DataType::Int(32))]);
    sys.set_current_module(m);
    let a = sys.create_fifo_pop(3);
    let b = sys.create_add(a, a);
    barrier(&mut sys, b);
    let x = sys.create_mul(b, b);
    barrier(&mut sys, x);
    let p = sys.create_sub(b, b);
    let n = sys.create_add(b, p);
    let y = sys.create_add(x, x);
    let bind = sys.get_init_bind(0);
    sys.bind_arg(bind, "out", y).unwrap();
    sys.create_async_call(bind);
    assert_eq!((a, b, x, p, n, y), (4, 5, 7, 9, 10, 11));
    let c = analyze(&sys, m).unwrap();
    assert_eq!(c.sub_module_order(), &vec![4, 5, 7]);
    // the chain of ports holds
    assert_eq!(c.stage_at(0).unwrap().buffered_barriers(), &vec![5, 9]);
    assert_eq!(c.stage_at(1).unwrap().buffered_ports(), &vec![5, 9]);
    assert_eq!(c.stage_at(1).unwrap().buffered_barriers(), &vec![7]);
    assert_eq!(c.stage_at(2).unwrap().buffered_ports(), &vec![7]);
    // `p` is a port of stage 1 that is reached when stage 1 is closed: what
    // follows it goes one level down, so `n` lands below its operand `p`
    assert_eq!(c.stage_at(0).unwrap().buffered_expr(), &vec![4, 5, 10]);
    assert_eq!(c.stage_at(1).unwrap().buffered_expr(), &vec![7, 9]);
    assert_eq!(c.stage_at(2).unwrap().buffered_expr(), &vec![11]);
}
