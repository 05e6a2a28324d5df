use barrier_cut::builder::{PortInfo, SysBuilder};
use barrier_cut::discovery::GatherModulesToCut;
use barrier_cut::error::PassError;
use barrier_cut::ir::{Binary, BlockIntrinsic, DataType, Opcode};
use barrier_cut::rewrite::CutModules;

fn barrier(sys: &mut SysBuilder, value: usize) -> usize {
    sys.create_expr(
        Opcode::BlockIntrinsic { intrinsic: BlockIntrinsic::Barrier },
        vec![value],
        DataType::Void,
    )
}

/// A system with a module `sink` (key 0) that has one port `out` (key 1),
/// and a module `name` (key 2) with one input FIFO `x` (key 3), on which
/// the cursor stands.
fn with_sink(name: &str) -> SysBuilder {
    let mut sys = SysBuilder::new();
    let sink = sys.create_module("sink", vec![PortInfo::new("out", DataType::Int(32))]);
    let m = sys.create_module(name, vec![PortInfo::new("x", DataType::Int(32))]);
    assert_eq!((sink, m), (0, 2));
    sys.set_current_module(m);
    sys
}

/// Appends the call of the sink with `value` pushed to its port `out`.
fn call_sink(sys: &mut SysBuilder, value: usize) -> (usize, usize, usize) {
    let bind = sys.get_init_bind(0);
    let push = sys.bind_arg(bind, "out", value).unwrap();
    let call = sys.create_async_call(bind);
    (bind, push, call)
}

/// `a = pop(x); b = a + a; barrier(b); c = b * 2; push(out, c)`.
fn add_then_mul(name: &str) -> SysBuilder {
    let mut sys = with_sink(name);
    let two = sys.create_int_imm(DataType::Int(32), 2);
    let a = sys.create_fifo_pop(3);
    let b = sys.create_add(a, a);
    let bar = barrier(&mut sys, b);
    let c = sys.create_mul(b, two);
    let calls = call_sink(&mut sys, c);
    assert_eq!((two, a, b, bar, c, calls), (4, 5, 6, 7, 8, (9, 10, 11)));
    sys
}

fn run(sys: &mut SysBuilder) -> Result<(Vec<usize>, Vec<usize>), PassError> {
    let map = {
        let mut gather = GatherModulesToCut::new(sys);
        gather.enter(sys)?;
        gather.submodule_container_map().clone()
    };
    let mut cut = CutModules::new(sys);
    cut.set_submodule_container_map(map);
    let report = cut.cut_modules()?;
    Ok((report.created, report.skipped))
}

fn dump(sys: &SysBuilder, m: usize) -> Vec<(usize, Opcode, Vec<usize>)> {
    sys.body(m).into_iter().map(|k| (k, sys.opcode(k), sys.operands(k))).collect()
}

#[test]
fn single_barrier_add_then_mul() {
    let mut sys = add_then_mul("adder");
    let (created, skipped) = run(&mut sys).unwrap();
    assert_eq!(created, vec![12]);
    assert_eq!(skipped, Vec::<usize>::new());
    assert_eq!(sys.module_name(12), "adder_1");
    assert_eq!(sys.ports(12), vec![13, 14]);
    assert_eq!(sys.fifo_name(13), "buffered_6");
    assert_eq!(sys.fifo_name(14), "buffered_4");
    // stage 0 keeps the pop and the add, and calls the stage with `b` and the constant
    assert_eq!(sys.body(2), vec![5, 6, 19, 20, 21, 22]);
    assert_eq!(sys.operands(19), vec![12, 20, 21]);
    assert_eq!(sys.operands(20), vec![13, 6]);
    assert_eq!(sys.operands(21), vec![14, 4]);
    assert_eq!(sys.operands(22), vec![19]);
    // stage 1 waits, pops, multiplies, and pushes to `out` again
    let valid = Opcode::PureIntrinsic { intrinsic: barrier_cut::ir::PureIntrinsic::FIFOValid };
    let wait = Opcode::BlockIntrinsic { intrinsic: BlockIntrinsic::WaitUntil };
    assert_eq!(
        dump(&sys, 12),
        vec![
            (15, valid, vec![13]),
            (16, valid, vec![14]),
            (17, Opcode::Binary { binop: Binary::BitwiseAnd }, vec![15, 16]),
            (18, wait, vec![17]),
            (23, Opcode::FIFOPop, vec![13]),
            (24, Opcode::FIFOPop, vec![14]),
            (25, Opcode::Bind, vec![0, 27]),
            (26, Opcode::Binary { binop: Binary::Mul }, vec![23, 24]),
            (27, Opcode::FIFOPush, vec![1, 26]),
            (28, Opcode::AsyncCall, vec![25]),
        ]
    );
    assert_eq!(sys.len(), 29);
}

#[test]
fn no_barrier_leaves_the_system_alone() {
    let mut sys = with_sink("plain");
    let a = sys.create_fifo_pop(3);
    let b = sys.create_add(a, a);
    call_sink(&mut sys, b);
    let before = (sys.len(), sys.body(2));
    {
        let mut gather = GatherModulesToCut::new(&sys);
        gather.enter(&sys).unwrap();
        assert!(gather.submodule_container_map().is_empty());
    }
    let (created, skipped) = run(&mut sys).unwrap();
    assert!(created.is_empty());
    assert!(skipped.is_empty());
    assert_eq!((sys.len(), sys.body(2)), before);
}

#[test]
fn two_barriers_in_a_chain_give_three_stages() {
    let mut sys = with_sink("chain");
    let a = sys.create_fifo_pop(3);
    let b1 = sys.create_add(a, a);
    barrier(&mut sys, b1);
    let b2 = sys.create_mul(b1, b1);
    barrier(&mut sys, b2);
    let c = sys.create_sub(b2, b2);
    call_sink(&mut sys, c);
    assert_eq!((a, b1, b2, c, sys.len()), (4, 5, 7, 9, 13));
    let (created, skipped) = run(&mut sys).unwrap();
    assert_eq!(created, vec![13, 22]);
    assert!(skipped.is_empty());
    assert_eq!(sys.module_name(13), "chain_1");
    assert_eq!(sys.module_name(22), "chain_2");
    assert_eq!(sys.fifo_name(14), "buffered_5");
    assert_eq!(sys.fifo_name(23), "buffered_7");
    // only the last stage erases what it cloned
    assert_eq!(sys.body(2), vec![4, 5, 7, 17, 18, 19]);
    assert_eq!(sys.body(13), vec![15, 16, 20, 21, 26, 27, 28]);
    assert_eq!(sys.body(22), vec![24, 25, 29, 30, 31, 32, 33]);
    assert_eq!(sys.operands(21), vec![20, 20]);
    assert_eq!(sys.operands(27), vec![23, 21]);
    assert_eq!(sys.opcode(31), Opcode::Binary { binop: Binary::Sub });
    assert_eq!(sys.operands(31), vec![29, 29]);
    assert_eq!(sys.operands(32), vec![1, 31]);
}

#[test]
fn two_barriers_on_values_used_together_share_one_cut() {
    let mut sys = with_sink("pair");
    let a = sys.create_fifo_pop(3);
    let b1 = sys.create_add(a, a);
    barrier(&mut sys, b1);
    let b2 = sys.create_mul(a, a);
    barrier(&mut sys, b2);
    let c = sys.create_sub(b1, b2);
    call_sink(&mut sys, c);
    assert_eq!((b1, b2, c), (5, 7, 9));
    let (created, _) = run(&mut sys).unwrap();
    // the consumer of both values makes the second one cross the first cut
    assert_eq!(created, vec![13]);
    assert_eq!(sys.ports(13), vec![14, 15]);
    assert_eq!(sys.fifo_name(14), "buffered_5");
    assert_eq!(sys.fifo_name(15), "buffered_7");
    assert_eq!(sys.body(2), vec![4, 5, 7, 20, 21, 22, 23]);
    assert_eq!(sys.operands(27), vec![24, 25]);
}

#[test]
fn harness_modules_are_skipped() {
    for name in ["testbench", "driver"] {
        let mut sys = add_then_mul(name);
        let before = (sys.len(), sys.body(2));
        {
            let mut gather = GatherModulesToCut::new(&sys);
            gather.enter(&sys).unwrap();
            assert!(gather.submodule_container_map().is_empty());
        }
        let (created, _) = run(&mut sys).unwrap();
        assert!(created.is_empty());
        assert_eq!((sys.len(), sys.body(2)), before);
    }
}

#[test]
fn slice_before_the_cut_is_the_port() {
    let mut sys = with_sink("slicer");
    let lo = sys.create_int_imm(DataType::Int(32), 0);
    let hi = sys.create_int_imm(DataType::Int(32), 8);
    let a = sys.create_fifo_pop(3);
    let s = sys.create_slice(a, lo, hi);
    barrier(&mut sys, s);
    let d = sys.create_add(s, s);
    call_sink(&mut sys, d);
    assert_eq!((lo, hi, a, s, d), (4, 5, 6, 7, 9));
    let (created, skipped) = run(&mut sys).unwrap();
    assert_eq!(created, vec![13]);
    assert!(skipped.is_empty());
    assert_eq!(sys.ports(13), vec![14]);
    assert_eq!(sys.fifo_name(14), "buffered_7");
    // the slice stays upstream; downstream only the add is made again
    assert_eq!(sys.body(2), vec![6, 7, 17, 18, 19]);
    let clones: Vec<Opcode> = sys.body(13).into_iter().map(|k| sys.opcode(k)).collect();
    assert!(!clones.contains(&Opcode::Slice));
    assert!(clones.contains(&Opcode::Binary { binop: Binary::Add }));
}

#[test]
fn slice_after_the_cut_is_made_again_with_its_bounds() {
    let mut sys = with_sink("slicer");
    let lo = sys.create_int_imm(DataType::Int(32), 0);
    let hi = sys.create_int_imm(DataType::Int(32), 8);
    let a = sys.create_fifo_pop(3);
    let b = sys.create_add(a, a);
    barrier(&mut sys, b);
    let s = sys.create_slice(b, lo, hi);
    call_sink(&mut sys, s);
    assert_eq!((a, b, s), (6, 7, 9));
    let (created, _) = run(&mut sys).unwrap();
    assert_eq!(created, vec![13]);
    // the bounds of the slice do not cross the cut
    assert_eq!(sys.ports(13), vec![14]);
    assert_eq!(sys.fifo_name(14), "buffered_7");
    let body = sys.body(13);
    let slice = body.iter().copied().find(|k| sys.opcode(*k) == Opcode::Slice).unwrap();
    let pop = body.iter().copied().find(|k| sys.opcode(*k) == Opcode::FIFOPop).unwrap();
    assert_eq!(sys.operands(slice), vec![pop, lo, hi]);
}

#[test]
fn unsupported_opcode_is_skipped_and_reported() {
    let mut sys = with_sink("modder");
    let a = sys.create_fifo_pop(3);
    let b = sys.create_add(a, a);
    barrier(&mut sys, b);
    let md = sys.create_binary(Binary::Mod, b, b);
    let c = sys.create_mul(b, b);
    call_sink(&mut sys, c);
    assert_eq!((a, b, md, c), (4, 5, 7, 8));
    let (created, skipped) = run(&mut sys).unwrap();
    assert_eq!(created, vec![12]);
    assert_eq!(skipped, vec![7]);
    let opcodes: Vec<Opcode> = sys.body(12).into_iter().map(|k| sys.opcode(k)).collect();
    assert!(!opcodes.contains(&Opcode::Binary { binop: Binary::Mod }));
    assert!(opcodes.contains(&Opcode::Binary { binop: Binary::Mul }));
    // what was not cloned stays where it was
    assert_eq!(sys.body(2), vec![4, 5, 7, 16, 17, 18]);
}

#[test]
fn value_of_unsupported_opcode_used_downstream_is_missing() {
    let mut sys = with_sink("modder");
    let a = sys.create_fifo_pop(3);
    let b = sys.create_add(a, a);
    barrier(&mut sys, b);
    let md = sys.create_binary(Binary::Mod, b, b);
    let c = sys.create_mul(md, md);
    call_sink(&mut sys, c);
    assert_eq!(run(&mut sys), Err(PassError::MissingValue));
}

#[test]
fn barrier_on_the_first_input_stops_the_pass() {
    let mut sys = with_sink("eager");
    let a = sys.create_fifo_pop(3);
    barrier(&mut sys, a);
    let c = sys.create_add(a, a);
    call_sink(&mut sys, c);
    assert_eq!((a, c), (4, 6));
    let len = sys.len();
    // the stage at level 0 and the stage of the cut would share the key 4
    assert_eq!(run(&mut sys), Err(PassError::StageTaken));
    assert_eq!(sys.len(), len);
    assert_eq!(sys.body(2), vec![4, 5, 6, 7, 8, 9]);
}

#[test]
fn walk_fails_where_a_level_has_no_stage() {
    let mut sys = SysBuilder::new();
    let sink = sys.create_module(
        "sink",
        vec![PortInfo::new("out", DataType::Int(32)), PortInfo::new("out2", DataType::Int(32))],
    );
    let m = sys.create_module("fragile", vec![PortInfo::new("x", DataType::Int(32))]);
    assert_eq!((sink, m), (0, 3));
    sys.set_current_module(m);
    let a = sys.create_fifo_pop(4);
    let o = sys.create_add(a, a);
    let b = sys.create_mul(a, a);
    barrier(&mut sys, b);
    let _c = sys.create_sub(b, b);
    let bind = sys.get_init_bind(sink);
    sys.bind_arg(bind, "out", o).unwrap();
    sys.bind_arg(bind, "out2", b).unwrap();
    sys.create_async_call(bind);
    let before = sys.len();
    assert_eq!(run(&mut sys), Err(PassError::MissingStage));
    assert_eq!(sys.len(), before);
}

#[test]
fn push_to_a_port_that_the_callee_lacks_is_a_missing_port() {
    let mut sys = SysBuilder::new();
    let sink_a = sys.create_module("sink_a", vec![PortInfo::new("pa", DataType::Int(32))]);
    let sink_b = sys.create_module("sink_b", vec![PortInfo::new("pb", DataType::Int(32))]);
    let m = sys.create_module("two_calls", vec![PortInfo::new("x", DataType::Int(32))]);
    assert_eq!((sink_a, sink_b, m), (0, 2, 4));
    sys.set_current_module(m);
    let a = sys.create_fifo_pop(5);
    let b = sys.create_add(a, a);
    barrier(&mut sys, b);
    let c = sys.create_add(b, b);
    let bind_a = sys.get_init_bind(sink_a);
    sys.bind_arg(bind_a, "pa", c).unwrap();
    let bind_b = sys.get_init_bind(sink_b);
    sys.create_async_call(bind_b);
    // the last bind decides the callee, which has no port named `pa`
    assert_eq!(run(&mut sys), Err(PassError::MissingPort));
}

#[test]
fn second_run_finds_nothing_to_split() {
    let mut sys = add_then_mul("adder");
    run(&mut sys).unwrap();
    let before = (sys.len(), sys.body(2), sys.body(12));
    let (created, skipped) = run(&mut sys).unwrap();
    assert!(created.is_empty());
    assert!(skipped.is_empty());
    assert_eq!((sys.len(), sys.body(2), sys.body(12)), before);
}

#[test]
fn two_modules_are_split_by_rising_key() {
    let mut sys = add_then_mul("first");
    let m2 = sys.create_module("second", vec![PortInfo::new("y", DataType::Int(32))]);
    assert_eq!(m2, 12);
    sys.set_current_module(m2);
    let a = sys.create_fifo_pop(13);
    let b = sys.create_sub(a, a);
    barrier(&mut sys, b);
    let c = sys.create_add(b, b);
    call_sink(&mut sys, c);
    let (created, _) = run(&mut sys).unwrap();
    assert_eq!(created.len(), 2);
    assert_eq!(sys.module_name(created[0]), "first_1");
    assert_eq!(sys.module_name(created[1]), "second_1");
    assert!(created[0] < created[1]);
    for m in [2, 12, created[0], created[1]] {
        for k in sys.body(m) {
            assert_ne!(
                sys.opcode(k),
                Opcode::BlockIntrinsic { intrinsic: BlockIntrinsic::Barrier }
            );
        }
    }
}

#[test]
fn cursor_is_back_where_it_was() {
    let mut sys = add_then_mul("adder");
    sys.set_current_module(0);
    run(&mut sys).unwrap();
    assert_eq!(sys.current_module(), 0);
    let mut sys = add_then_mul("adder");
    assert_eq!(sys.current_module(), 2);
    run(&mut sys).unwrap();
    assert_eq!(sys.current_module(), 2);
}

#[test]
fn pushes_of_one_value_are_each_issued_again() {
    let mut sys = SysBuilder::new();
    let sink = sys.create_module(
        "sink",
        vec![PortInfo::new("lo", DataType::Int(32)), PortInfo::new("hi", DataType::Int(32))],
    );
    let m = sys.create_module("twice", vec![PortInfo::new("x", DataType::Int(32))]);
    assert_eq!((sink, m), (0, 3));
    sys.set_current_module(m);
    let a = sys.create_fifo_pop(4);
    let b = sys.create_add(a, a);
    barrier(&mut sys, b);
    let c = sys.create_mul(b, b);
    let bind = sys.get_init_bind(sink);
    sys.bind_arg(bind, "lo", c).unwrap();
    sys.bind_arg(bind, "hi", c).unwrap();
    sys.create_async_call(bind);
    let (created, _) = run(&mut sys).unwrap();
    let body = sys.body(created[0]);
    let pushes: Vec<usize> =
        body.iter().copied().filter(|k| sys.opcode(*k) == Opcode::FIFOPush).collect();
    // one argument for each push, in the order of the pushes, with one value
    assert_eq!(pushes.len(), 2);
    assert_eq!(sys.fifo_name(sys.operands(pushes[0])[0]), "lo");
    assert_eq!(sys.fifo_name(sys.operands(pushes[1])[0]), "hi");
    assert_eq!(sys.operands(pushes[0])[1], sys.operands(pushes[1])[1]);
    assert_eq!(sys.opcode(sys.operands(pushes[0])[1]), Opcode::Binary { binop: Binary::Mul });
    let call = *body.last().unwrap();
    assert_eq!(sys.operands(sys.operands(call)[0]), vec![sink, pushes[0], pushes[1]]);
}

#[test]
fn bind_that_the_call_index_does_not_know_is_not_issued_again() {
    let mut sys = with_sink("loose");
    let a = sys.create_fifo_pop(3);
    let b = sys.create_add(a, a);
    barrier(&mut sys, b);
    let c = sys.create_mul(b, b);
    // a bind to what is no module
    let bind = sys.create_expr(Opcode::Bind, vec![c], DataType::Void);
    sys.create_async_call(bind);
    let index = barrier_cut::callers::find_module_with_callers(&sys);
    assert!(index.is_empty());
    let (created, _) = run(&mut sys).unwrap();
    let opcodes: Vec<Opcode> = sys.body(created[0]).into_iter().map(|k| sys.opcode(k)).collect();
    assert!(!opcodes.contains(&Opcode::Bind));
    assert!(!opcodes.contains(&Opcode::AsyncCall));
    assert!(opcodes.contains(&Opcode::Binary { binop: Binary::Mul }));
}

#[test]
fn whole_pass_in_one_call() {
    let mut by_parts = add_then_mul("adder");
    let parts = run(&mut by_parts).unwrap();
    let mut sys = add_then_mul("adder");
    let report = barrier_cut::pass::split_modules(&mut sys).unwrap();
    assert_eq!((report.created, report.skipped), parts);
    assert_eq!(sys.len(), by_parts.len());
    assert_eq!(sys.body(2), by_parts.body(2));
    assert_eq!(sys.body(12), by_parts.body(12));
    let mut plain = SysBuilder::new();
    let report = barrier_cut::pass::split_modules(&mut plain).unwrap();
    assert!(report.created.is_empty());
}
