use barrier_cut::builder::{PortInfo, SysBuilder};
use barrier_cut::error::PassError;
use barrier_cut::ir::{DataType, Opcode};
use barrier_cut::rewrite::{cut_all, CutModules};
use barrier_cut::stage::{StageTable, SubModule, SubModuleContainer};
use std::collections::HashMap;

/// A module `m` (key 0) with one input FIFO (key 1) and the body
/// `a = pop; b = a + a; c = b * b` (keys 2, 3, 4).
fn small() -> SysBuilder {
    let mut sys = SysBuilder::new();
    let m = sys.create_module("m", vec![PortInfo::new("x", DataType::Int(32))]);
    sys.set_current_module(m);
    let a = sys.create_fifo_pop(1);
    let b = sys.create_add(a, a);
    sys.create_mul(b, b);
    sys
}

fn stage(ports: Vec<usize>, barriers: Vec<usize>, body: Vec<usize>) -> SubModule {
    let mut table = StageTable::new();
    table.put(0, SubModule::new(ports));
    table.close_at(0, barriers);
    for k in body {
        table.join_at(0, k);
    }
    table.at(0).copy()
}

fn container(stages: Vec<(usize, SubModule)>, order: Vec<usize>) -> SubModuleContainer {
    let mut table = StageTable::new();
    for (key, s) in stages {
        table.put(key, s);
    }
    SubModuleContainer::assemble("m".to_string(), table, order, vec![], vec![])
}

fn cut_with(sys: &mut SysBuilder, key: usize, c: SubModuleContainer) -> Result<Vec<usize>, PassError> {
    let mut map = HashMap::new();
    map.insert(key, c);
    cut_all(sys, &map).map(|report| report.created)
}

#[test]
fn container_for_what_is_no_module_dangles() {
    let mut sys = small();
    let c = container(vec![], vec![]);
    assert_eq!(cut_with(&mut sys, 2, c), Err(PassError::DanglingKey));
    assert_eq!(sys.len(), 5);
}

#[test]
fn container_beyond_the_system_is_never_reached() {
    let mut sys = small();
    let c = container(vec![], vec![]);
    assert_eq!(cut_with(&mut sys, 77, c), Ok(vec![]));
    assert_eq!(sys.len(), 5);
}

#[test]
fn level_without_a_stage_is_missing() {
    let mut sys = small();
    let c = container(vec![(2, stage(vec![2], vec![3], vec![2, 3]))], vec![2, 9]);
    assert_eq!(cut_with(&mut sys, 0, c), Err(PassError::MissingStage));
}

#[test]
fn stage_zero_hands_over_nodes_of_the_system_only() {
    let mut sys = small();
    let c = container(vec![(2, stage(vec![2], vec![40], vec![2]))], vec![2]);
    assert_eq!(cut_with(&mut sys, 0, c), Err(PassError::DanglingKey));
}

#[test]
fn port_that_nothing_is_handed_over_for_is_missing() {
    let mut sys = small();
    let c = container(
        vec![(2, stage(vec![2], vec![3], vec![2, 3])), (3, stage(vec![4], vec![], vec![]))],
        vec![2, 3],
    );
    assert_eq!(cut_with(&mut sys, 0, c), Err(PassError::MissingHandoff));
    assert_eq!(sys.len(), 5);
}

#[test]
fn value_that_the_stage_does_not_hold_cannot_be_handed_on() {
    let mut sys = small();
    let c = container(
        vec![(2, stage(vec![2], vec![3], vec![2, 3])), (3, stage(vec![3], vec![2], vec![4]))],
        vec![2, 3],
    );
    assert_eq!(cut_with(&mut sys, 0, c), Err(PassError::MissingValue));
}

#[test]
fn single_level_container_emits_nothing() {
    let mut sys = small();
    let c = container(vec![(2, stage(vec![2], vec![4], vec![2, 3, 4]))], vec![2]);
    assert_eq!(cut_with(&mut sys, 0, c), Ok(vec![]));
    assert_eq!(sys.len(), 5);
    assert_eq!(sys.body(0), vec![2, 3, 4]);
}

#[test]
fn stage_without_ports_has_no_handshake() {
    let mut sys = small();
    let c = container(
        vec![(2, stage(vec![2], vec![], vec![2])), (9, stage(vec![], vec![], vec![]))],
        vec![2, 9],
    );
    assert_eq!(cut_with(&mut sys, 0, c), Ok(vec![5]));
    assert_eq!(sys.module_name(5), "m_1");
    assert!(sys.ports(5).is_empty());
    assert!(sys.body(5).is_empty());
    // the source module still calls the stage
    assert_eq!(sys.body(0), vec![2, 3, 4, 6, 7]);
    assert_eq!(sys.opcode(6), Opcode::Bind);
    assert_eq!(sys.operands(6), vec![5]);
    assert_eq!(sys.opcode(7), Opcode::AsyncCall);
}

#[test]
fn rewriter_keeps_its_containers() {
    let mut sys = small();
    let mut cut = CutModules::new(&mut sys);
    assert!(!cut.is_submodule_valid(0));
    let mut map = HashMap::new();
    map.insert(0, container(vec![(2, stage(vec![2], vec![4], vec![2, 3, 4]))], vec![2]));
    cut.set_submodule_container_map(map);
    assert!(cut.is_submodule_valid(0));
    assert!(!cut.is_submodule_valid(1));
    assert!(cut.is_expr_valid(&HashMap::new(), 3));
    let report = cut.cut_modules().unwrap();
    assert!(report.created.is_empty());
    assert!(report.skipped.is_empty());
    assert!(cut.is_submodule_valid(0));
}

#[test]
fn failed_rewrite_leaves_the_system_as_it_had_it() {
    let mut sys = small();
    // the second stage is to clone the add, whose operand is no port of it
    let c = container(
        vec![(2, stage(vec![2], vec![3], vec![2, 3])), (3, stage(vec![3], vec![], vec![3, 4]))],
        vec![2, 3],
    );
    assert_eq!(cut_with(&mut sys, 0, c), Err(PassError::MissingValue));
    // module, port, probe, wait, bind, push, call and pop were made
    assert_eq!(sys.len(), 13);
    assert_eq!(sys.module_name(5), "m_1");
    assert_eq!(sys.body(5), vec![7, 8, 12]);
    assert_eq!(sys.body(0), vec![2, 3, 4, 9, 10, 11]);
    assert_eq!(sys.current_module(), 5);
}
