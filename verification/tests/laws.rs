use barrier_cut::builder::{PortInfo, SysBuilder};
use barrier_cut::discovery::GatherModulesToCut;
use barrier_cut::ir::{Binary, BlockIntrinsic, Cast, DataType, Opcode, PureIntrinsic};
use barrier_cut::rewrite::CutModules;
use barrier_cut::stage::SubModuleContainer;
use std::collections::HashMap;

const BARRIER: Opcode = Opcode::BlockIntrinsic { intrinsic: BlockIntrinsic::Barrier };
const WAIT: Opcode = Opcode::BlockIntrinsic { intrinsic: BlockIntrinsic::WaitUntil };
const VALID: Opcode = Opcode::PureIntrinsic { intrinsic: PureIntrinsic::FIFOValid };
const AND: Opcode = Opcode::Binary { binop: Binary::BitwiseAnd };

fn barrier(sys: &mut SysBuilder, value: usize) -> usize {
    sys.create_expr(BARRIER, vec![value], DataType::Void)
}

/// A module with two inputs and three cuts, one after the other, that
/// calls a sink with two ports.
fn deep() -> SysBuilder {
    let mut sys = SysBuilder::new();
    let sink = sys.create_module(
        "sink",
        vec![PortInfo::new("lo", DataType::Int(32)), PortInfo::new("hi", DataType::Int(32))],
    );
    let m = sys.create_module(
        "deep",
        vec![PortInfo::new("x", DataType::Int(32)), PortInfo::new("y", DataType::Int(16))],
    );
    assert_eq!((sink, m), (0, 3));
    sys.set_current_module(m);
    let x = sys.create_fifo_pop(4);
    let s = sys.create_add(x, x);
    barrier(&mut sys, s);
    let t = sys.create_mul(s, s);
    let u = sys.create_bitcast(t, DataType::UInt(32));
    barrier(&mut sys, u);
    let v = sys.create_sub(u, u);
    barrier(&mut sys, v);
    let w = sys.create_add(v, v);
    let z = sys.create_mul(v, v);
    let bind = sys.get_init_bind(sink);
    sys.bind_arg(bind, "lo", w).unwrap();
    sys.bind_arg(bind, "hi", z).unwrap();
    sys.create_async_call(bind);
    sys
}

/// `a = pop(x); b = a + a; barrier(b); c = b * 2; push(out, c)` in module 2.
fn add_then_mul() -> SysBuilder {
    let mut sys = SysBuilder::new();
    sys.create_module("sink", vec![PortInfo::new("out", DataType::Int(32))]);
    let m = sys.create_module("adder", vec![PortInfo::new("x", DataType::Int(32))]);
    sys.set_current_module(m);
    let two = sys.create_int_imm(DataType::Int(32), 2);
    let a = sys.create_fifo_pop(3);
    let b = sys.create_add(a, a);
    barrier(&mut sys, b);
    let c = sys.create_mul(b, two);
    let bind = sys.get_init_bind(0);
    sys.bind_arg(bind, "out", c).unwrap();
    sys.create_async_call(bind);
    sys
}

struct Split {
    source: usize,
    container: SubModuleContainer,
    modules: Vec<usize>,
    before: usize,
}

/// Splits the one module of `sys` that has a barrier.
fn split(sys: &mut SysBuilder) -> Split {
    let before = sys.len();
    let map: HashMap<usize, SubModuleContainer> = {
        let mut gather = GatherModulesToCut::new(sys);
        gather.enter(sys).unwrap();
        gather.submodule_container_map().clone()
    };
    assert_eq!(map.len(), 1);
    let (source, container) = map.iter().map(|(k, c)| (*k, c.clone())).next().unwrap();
    let mut cut = CutModules::new(sys);
    cut.set_submodule_container_map(map);
    let report = cut.cut_modules().unwrap();
    let mut modules = vec![source];
    modules.extend(report.created);
    Split { source, container, modules, before }
}

fn is_cloneable(op: Opcode) -> bool {
    matches!(
        op,
        Opcode::Binary { binop: Binary::Add }
            | Opcode::Binary { binop: Binary::Sub }
            | Opcode::Binary { binop: Binary::Mul }
            | Opcode::Cast { cast: Cast::BitCast }
            | Opcode::Slice
    )
}

fn is_stage_value(sys: &SysBuilder, m: usize, y: usize) -> bool {
    sys.is_expr(y)
        && sys.parent(y) == m
        && (sys.opcode(y) == Opcode::FIFOPop || is_cloneable(sys.opcode(y)))
}

fn is_and_reduction(sys: &SysBuilder, c: usize, fifos: &[usize]) -> bool {
    match fifos.len() {
        0 => false,
        1 => sys.opcode(c) == VALID && sys.operands(c) == vec![fifos[0]],
        n => {
            let ops = sys.operands(c);
            sys.opcode(c) == AND
                && ops.len() == 2
                && is_and_reduction(sys, ops[0], &fifos[..n - 1])
                && sys.opcode(ops[1]) == VALID
                && sys.operands(ops[1]) == vec![fifos[n - 1]]
        }
    }
}

fn check_barrier_removal(sys: &SysBuilder, s: &Split) {
    for m in &s.modules {
        for k in sys.body(*m) {
            assert_ne!(sys.opcode(k), BARRIER);
        }
    }
}

fn check_port_coverage(sys: &SysBuilder, s: &Split) {
    assert_eq!(s.modules.len(), s.container.sub_module_order().len());
    for k in 1..s.modules.len() {
        let m = s.modules[k];
        let ports = s.container.stage_at(k).unwrap().buffered_ports().clone();
        assert_eq!(sys.module_name(m), format!("{}_{}", s.container.module_name(), k));
        let fifos = sys.ports(m);
        assert_eq!(fifos.len(), ports.len());
        for i in 0..ports.len() {
            assert_eq!(sys.fifo_name(fifos[i]), format!("buffered_{}", ports[i]));
            assert_eq!(sys.fifo_module(fifos[i]), m);
        }
    }
}

fn check_handshake(sys: &SysBuilder, s: &Split) {
    for k in 1..s.modules.len() {
        let m = s.modules[k];
        let body = sys.body(m);
        let fifos = sys.ports(m);
        let n = fifos.len();
        let waits: Vec<usize> = (0..body.len()).filter(|j| sys.opcode(body[*j]) == WAIT).collect();
        assert_eq!(waits, vec![2 * n - 1]);
        let cond = sys.operands(body[waits[0]]);
        assert_eq!(cond.len(), 1);
        assert!(is_and_reduction(sys, cond[0], &fifos));
        for i in 0..n {
            let pops: Vec<usize> = (0..body.len())
                .filter(|j| {
                    sys.opcode(body[*j]) == Opcode::FIFOPop && sys.operands(body[*j]) == vec![fifos[i]]
                })
                .collect();
            assert_eq!(pops, vec![2 * n + i]);
            assert!(waits[0] < pops[0]);
        }
        let all_pops = body.iter().filter(|k| sys.opcode(**k) == Opcode::FIFOPop).count();
        assert_eq!(all_pops, n);
    }
}

fn check_chain_linkage(sys: &SysBuilder, s: &Split) {
    for k in 1..s.modules.len() {
        let m = s.modules[k];
        let pred = s.modules[k - 1];
        let fifos = sys.ports(m);
        let binds: Vec<usize> = (0..sys.len())
            .filter(|b| sys.is_expr(*b) && sys.opcode(*b) == Opcode::Bind && sys.operands(*b)[0] == m)
            .collect();
        assert_eq!(binds.len(), 1);
        let bind = binds[0];
        assert_eq!(bind, m + 3 * fifos.len() + 1);
        assert_eq!(sys.parent(bind), pred);
        assert!(sys.body(pred).contains(&bind));
        let args = sys.operands(bind);
        assert_eq!(args.len(), 1 + fifos.len());
        for i in 0..fifos.len() {
            let push = args[1 + i];
            assert_eq!(sys.opcode(push), Opcode::FIFOPush);
            assert_eq!(sys.operands(push)[0], fifos[i]);
            assert_eq!(sys.parent(push), pred);
        }
        let calls: Vec<usize> = (0..sys.len())
            .filter(|c| {
                sys.is_expr(*c) && sys.opcode(*c) == Opcode::AsyncCall && sys.operands(*c)[0] == bind
            })
            .collect();
        assert_eq!(calls, vec![bind + 1 + fifos.len()]);
        assert_eq!(sys.parent(calls[0]), pred);
    }
}

fn check_operand_closure(sys: &SysBuilder, s: &Split) {
    for k in 1..s.modules.len() {
        let m = s.modules[k];
        let mut clones = 0;
        for x in 0..sys.len() {
            if sys.is_expr(x) && sys.parent(x) == m && is_cloneable(sys.opcode(x)) {
                clones += 1;
                let ops = sys.operands(x);
                let replaced = match sys.opcode(x) {
                    Opcode::Binary { .. } => 2,
                    _ => 1,
                };
                for o in &ops[..replaced] {
                    assert!(is_stage_value(sys, m, *o));
                    assert!(sys.body(m).contains(o));
                }
            }
        }
        assert_eq!(clones, s.container.stage_at(k).unwrap().buffered_expr().len());
    }
}

fn check_caller_preservation(sys: &SysBuilder, s: &Split, before: &SysBuilder) {
    let last = *s.modules.last().unwrap();
    let old_binds: Vec<usize> = s
        .container
        .caller_expr()
        .iter()
        .copied()
        .filter(|c| before.opcode(*c) == Opcode::Bind)
        .collect();
    let old_pushes: Vec<usize> = s
        .container
        .caller_expr()
        .iter()
        .copied()
        .filter(|c| before.opcode(*c) == Opcode::FIFOPush)
        .collect();
    let calls: Vec<usize> = sys
        .body(last)
        .into_iter()
        .filter(|c| sys.opcode(*c) == Opcode::AsyncCall)
        .collect();
    assert_eq!(calls.len(), old_binds.len().min(1));
    for call in calls {
        assert_eq!(call, sys.len() - 1);
        let bind = sys.operands(call)[0];
        assert_eq!(sys.parent(bind), last);
        let args = sys.operands(bind);
        assert!(old_binds.iter().any(|b| before.operands(*b)[0] == args[0]));
        let mut new_names: Vec<String> = Vec::new();
        for p in &args[1..] {
            let ops = sys.operands(*p);
            assert_eq!(sys.opcode(*p), Opcode::FIFOPush);
            assert_eq!(sys.fifo_module(ops[0]), args[0]);
            assert!(is_stage_value(sys, last, ops[1]));
            new_names.push(sys.fifo_name(ops[0]));
        }
        let mut old_names: Vec<String> =
            old_pushes.iter().map(|p| before.fifo_name(before.operands(*p)[0])).collect();
        new_names.sort();
        old_names.sort();
        assert_eq!(new_names, old_names);
    }
    // the calls of the source module are gone from its body
    for c in s.container.caller_expr() {
        assert!(!sys.body(s.source).contains(c));
    }
}

fn check_stage_chain(before: &SysBuilder, s: &Split) {
    let levels = s.container.sub_module_order().len();
    let inputs: Vec<usize> = before
        .body(s.source)
        .into_iter()
        .filter(|k| matches!(before.opcode(*k), Opcode::Load | Opcode::FIFOPop))
        .collect();
    assert_eq!(s.container.stage_at(0).unwrap().buffered_ports(), &inputs);
    let mut seen: Vec<usize> = Vec::new();
    for k in 0..levels {
        let stage = s.container.stage_at(k).unwrap();
        if k + 1 < levels {
            let next = s.container.stage_at(k + 1).unwrap();
            assert_eq!(stage.buffered_barriers(), next.buffered_ports());
        }
        for x in stage.buffered_expr() {
            assert!(!seen.contains(x));
            seen.push(*x);
        }
    }
    for x in inputs {
        assert!(seen.contains(&x));
    }
    // the first stage has the first input as its key, no key is used twice
    let order = s.container.sub_module_order();
    let first_input = before
        .body(s.source)
        .into_iter()
        .find(|k| matches!(before.opcode(*k), Opcode::Load | Opcode::FIFOPop))
        .unwrap();
    assert_eq!(order[0], first_input);
    for (i, key) in order.iter().enumerate() {
        assert_eq!(s.container.sub_module_map().find(*key), i);
        if i > 0 {
            assert_eq!(s.container.stage_at(i).unwrap().buffered_ports()[0], *key);
        }
    }
    // an output in the body of the last stage labels it
    let outputs: Vec<usize> = before
        .body(s.source)
        .into_iter()
        .filter(|k| matches!(before.opcode(*k), Opcode::FIFOPush | Opcode::Store))
        .map(|k| before.operands(k)[1])
        .collect();
    let last = s.container.stage_at(levels - 1).unwrap();
    if outputs.iter().any(|x| last.buffered_expr().contains(x)) {
        assert_eq!(last.buffered_barriers(), &outputs);
    }
}

fn check_all(build: fn() -> SysBuilder, stages: usize) {
    let before = build();
    let mut sys = build();
    let s = split(&mut sys);
    assert_eq!(s.modules.len(), stages);
    assert_eq!(s.before, before.len());
    check_stage_chain(&before, &s);
    check_barrier_removal(&sys, &s);
    check_port_coverage(&sys, &s);
    check_handshake(&sys, &s);
    check_chain_linkage(&sys, &s);
    check_operand_closure(&sys, &s);
    check_caller_preservation(&sys, &s, &before);
}

#[test]
fn laws_hold_of_a_module_with_one_cut() {
    check_all(add_then_mul, 2);
}

/// A module that pushes one value to two ports of its callee, behind a cut.
fn twice() -> SysBuilder {
    let mut sys = SysBuilder::new();
    let sink = sys.create_module(
        "sink",
        vec![PortInfo::new("lo", DataType::Int(32)), PortInfo::new("hi", DataType::Int(32))],
    );
    let m = sys.create_module("twice", vec![PortInfo::new("x", DataType::Int(32))]);
    sys.set_current_module(m);
    let a = sys.create_fifo_pop(4);
    let b = sys.create_add(a, a);
    barrier(&mut sys, b);
    let c = sys.create_mul(b, b);
    let bind = sys.get_init_bind(sink);
    sys.bind_arg(bind, "lo", c).unwrap();
    sys.bind_arg(bind, "hi", c).unwrap();
    sys.create_async_call(bind);
    sys
}

#[test]
fn laws_hold_of_a_module_that_pushes_one_value_twice() {
    check_all(twice, 2);
}

#[test]
fn laws_hold_of_a_module_with_three_cuts() {
    check_all(deep, 4);
}

#[test]
fn values_cross_the_cuts_they_were_made_before() {
    let mut sys = deep();
    let s = split(&mut sys);
    // the pop 6, s 7, t 9, u 10, v 12, w 14, z 15
    let ports: Vec<Vec<usize>> =
        (0..4).map(|k| s.container.stage_at(k).unwrap().buffered_ports().clone()).collect();
    assert_eq!(ports, vec![vec![6], vec![7], vec![10], vec![12]]);
    let bodies: Vec<Vec<usize>> =
        (0..4).map(|k| s.container.stage_at(k).unwrap().buffered_expr().clone()).collect();
    assert_eq!(bodies, vec![vec![6, 7], vec![9, 10], vec![12], vec![14, 15]]);
    let barriers: Vec<Vec<usize>> =
        (0..4).map(|k| s.container.stage_at(k).unwrap().buffered_barriers().clone()).collect();
    assert_eq!(barriers, vec![vec![7], vec![10], vec![12], vec![14, 15]]);
    // the cast in the second stage is to a signed integer of 32 bits
    let m1 = s.modules[1];
    let cast = sys
        .body(m1)
        .into_iter()
        .find(|k| sys.opcode(*k) == Opcode::Cast { cast: Cast::BitCast })
        .unwrap();
    assert_eq!(sys.dtype(cast), DataType::Int(32));
    // the port of the third stage is typed as the value handed over, the cast
    assert_eq!(sys.dtype(sys.ports(s.modules[2])[0]), DataType::Int(32));
}
