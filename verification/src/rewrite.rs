//! The rewrite: every module that has stages is replaced by a chain of stage
//! modules that hand their live values to one another over FIFO ports.

use crate::builder::{port_views, PortInfo, SysBuilder};
use crate::callers::{called_by_index, keep_called};
use crate::emission::{
    failed,
    all_valid, bind_each, clone_body, clone_one, cloned_as, cut, cut_upto, erase_back, erase_down,
    erase_each, fifos_of, finish, hand_on, hand_over, handed, hands_all, handshake, pop_each,
    pop_remap, probes, rebind, rewrite_module, run_level, run_levels, run_stage, scan_callers,
    stage_entry, stage_ports, stage_remap, stitch, CloneView, Failure, OutcomeView, RunView,
    ScanView,
};
use crate::error::PassError;
use crate::ir::{Binary, Cast, DataType, Opcode, SysView};
use crate::keys::has_key;
use crate::stage::{ContainerView, SubModule, SubModuleContainer};
use crate::text::{buffered_port_name, stage_module_name};
use std::collections::HashMap;
use vstd::prelude::*;
use vstd::string::*;

verus! {

/// Every value of `map` addresses a node of `sv`.
pub open spec fn valid_map(sv: SysView, map: Map<usize, usize>) -> bool {
    forall|k: usize| map.contains_key(k) ==> sv.has(#[trigger] map[k])
}

/// Emits the handshake on `fifos` into the current module.
fn emit_handshake(sys: &mut SysBuilder, fifos: &Vec<usize>)
    requires
        old(sys)@.wf(),
        old(sys)@.is_module(old(sys)@.current),
        old(sys)@.has_all(fifos@),
    ensures
        final(sys)@ == handshake(old(sys)@, fifos@),
        final(sys)@.wf(),
        final(sys)@.current == old(sys)@.current,
        old(sys)@.grows_to(final(sys)@),
{
    let n = fifos.len();
    let mut acc: usize = 0;
    let mut i: usize = 0;
    proof {
        old(sys)@.lemma_grows_refl();
    }
    while i < n
        invariant
            i <= n,
            n == fifos@.len(),
            sys@ == probes(old(sys)@, fifos@, i as nat),
            i > 0 ==> acc == all_valid(old(sys)@, fifos@, i as nat) && sys@.has(acc),
            sys@.wf(),
            sys@.current == old(sys)@.current,
            old(sys)@.grows_to(sys@),
            old(sys)@.is_module(old(sys)@.current),
            old(sys)@.has_all(fifos@),
        decreases n - i,
    {
        let ghost before = sys@;
        proof {
            assert(old(sys)@.keeps(before, old(sys)@.current));
            assert(old(sys)@.has(fifos@[i as int]));
        }
        let v = sys.create_fifo_valid(fifos[i]);
        proof {
            old(sys)@.lemma_grows_trans(before, sys@);
        }
        if i > 0 {
            let ghost mid = sys@;
            acc = sys.create_bitwise_and(acc, v);
            proof {
                old(sys)@.lemma_grows_trans(mid, sys@);
            }
        } else {
            acc = v;
        }
        i += 1;
    }
    if n > 0 {
        let ghost before = sys@;
        proof {
            assert(old(sys)@.keeps(before, old(sys)@.current));
        }
        sys.create_wait_until(acc);
        proof {
            old(sys)@.lemma_grows_trans(before, sys@);
        }
    }
}

/// Emits into `pred` the call of the stage module `m`.
fn emit_stitch(sys: &mut SysBuilder, pred: usize, m: usize, fifos: &Vec<usize>, values: &Vec<usize>)
    requires
        old(sys)@.wf(),
        old(sys)@.is_module(pred),
        old(sys)@.has(m),
        old(sys)@.has_all(fifos@),
        old(sys)@.has_all(values@),
        fifos@.len() == values@.len(),
    ensures
        final(sys)@ == stitch(old(sys)@, pred, m, fifos@, values@),
        final(sys)@.wf(),
        final(sys)@.current == pred,
        old(sys)@.grows_to(final(sys)@),
{
    let n = fifos.len();
    sys.set_current_module(pred);
    let ghost s0 = sys@;
    let bind = sys.get_init_bind(m);
    let ghost s1 = sys@;
    proof {
        old(sys)@.lemma_grows_trans(s0, s1);
    }
    let mut i: usize = 0;
    while i < n
        invariant
            i <= n,
            n == fifos@.len(),
            fifos@.len() == values@.len(),
            sys@ == bind_each(s1, bind, fifos@, values@, i as nat),
            sys@.wf(),
            sys@.current == pred,
            s1.is_module(pred),
            s1.is_bind(bind),
            s1.grows_to(sys@),
            old(sys)@.nodes.len() <= s1.nodes.len(),
            old(sys)@.has_all(fifos@),
            old(sys)@.has_all(values@),
        decreases n - i,
    {
        let ghost before = sys@;
        proof {
            assert(s1.keeps(before, pred));
            assert(s1.keeps(before, bind));
            assert(old(sys)@.has(fifos@[i as int]));
            assert(old(sys)@.has(values@[i as int]));
        }
        sys.bind_port(bind, fifos[i], values[i]);
        proof {
            s1.lemma_grows_trans(before, sys@);
        }
        i += 1;
    }
    let ghost s2 = sys@;
    proof {
        assert(s1.keeps(s2, pred));
    }
    sys.create_async_call(bind);
    proof {
        s1.lemma_grows_trans(s2, sys@);
        old(sys)@.lemma_grows_trans(s1, sys@);
    }
}

/// Emits a pop of each of `fifos` into the current module and returns, for
/// each of `ports`, the pop that stands for it.
fn emit_pops(sys: &mut SysBuilder, ports: &Vec<usize>, fifos: &Vec<usize>) -> (remap: HashMap<
    usize,
    usize,
>)
    requires
        old(sys)@.wf(),
        old(sys)@.is_module(old(sys)@.current),
        old(sys)@.has_all(fifos@),
        fifos@.len() == ports@.len(),
    ensures
        final(sys)@ == pop_each(old(sys)@, fifos@, fifos@.len()),
        remap@ == pop_remap(old(sys)@, ports@, fifos@, fifos@.len()),
        valid_map(final(sys)@, remap@),
        final(sys)@.wf(),
        final(sys)@.current == old(sys)@.current,
        old(sys)@.grows_to(final(sys)@),
{
    let n = fifos.len();
    let mut remap: HashMap<usize, usize> = HashMap::new();
    let mut i: usize = 0;
    proof {
        old(sys)@.lemma_grows_refl();
    }
    while i < n
        invariant
            i <= n,
            n == fifos@.len(),
            fifos@.len() == ports@.len(),
            sys@ == pop_each(old(sys)@, fifos@, i as nat),
            remap@ == pop_remap(old(sys)@, ports@, fifos@, i as nat),
            valid_map(sys@, remap@),
            sys@.wf(),
            sys@.current == old(sys)@.current,
            old(sys)@.grows_to(sys@),
            old(sys)@.is_module(old(sys)@.current),
            old(sys)@.has_all(fifos@),
        decreases n - i,
    {
        let ghost before = sys@;
        proof {
            assert(old(sys)@.keeps(before, old(sys)@.current));
            assert(old(sys)@.has(fifos@[i as int]));
        }
        let pop = sys.create_fifo_pop(fifos[i]);
        remap.insert(ports[i], pop);
        proof {
            old(sys)@.lemma_grows_trans(before, sys@);
        }
        i += 1;
    }
    remap
}


/// Looks at the caller expressions with a key below `bound`, by rising key.
fn scan_caller_exprs(sys: &mut SysBuilder, callers: &Vec<usize>, bound: usize) -> (r: (
    Option<usize>,
    Vec<usize>,
    Vec<usize>,
))
    requires
        old(sys)@.wf(),
        old(sys)@.is_module(old(sys)@.current),
        bound <= old(sys)@.nodes.len(),
    ensures
        scan_callers(
            ScanView { sys: old(sys)@, bind: None, values: Seq::empty(), fifos: Seq::empty() },
            callers@,
            bound as nat,
        ) == (ScanView { sys: final(sys)@, bind: r.0, values: r.1@, fifos: r.2@ }),
        r.1@.len() == r.2@.len(),
        match r.0 {
            Some(b) => final(sys)@.is_bind(b),
            None => true,
        },
        final(sys)@.wf(),
        final(sys)@.current == old(sys)@.current,
        old(sys)@.grows_to(final(sys)@),
{
    let mut bind: Option<usize> = None;
    let mut values: Vec<usize> = Vec::new();
    let mut fifos: Vec<usize> = Vec::new();
    let ghost start = ScanView {
        sys: old(sys)@,
        bind: None,
        values: Seq::empty(),
        fifos: Seq::empty(),
    };
    let mut c: usize = 0;
    proof {
        old(sys)@.lemma_grows_refl();
        assert(values@ =~= Seq::<usize>::empty());
        assert(fifos@ =~= Seq::<usize>::empty());
    }
    while c < bound
        invariant
            c <= bound,
            bound <= old(sys)@.nodes.len(),
            start == (ScanView {
                sys: old(sys)@,
                bind: None,
                values: Seq::empty(),
                fifos: Seq::empty(),
            }),
            scan_callers(start, callers@, c as nat) == (ScanView {
                sys: sys@,
                bind,
                values: values@,
                fifos: fifos@,
            }),
            values@.len() == fifos@.len(),
            match bind {
                Some(b) => sys@.is_bind(b),
                None => true,
            },
            sys@.wf(),
            sys@.current == old(sys)@.current,
            old(sys)@.is_module(old(sys)@.current),
            old(sys)@.grows_to(sys@),
        decreases bound - c,
    {
        let ghost before = sys@;
        proof {
            assert(old(sys)@.keeps(before, old(sys)@.current));
        }
        if has_key(callers, c) && sys.is_expr(c) {
            proof {
                assert(sys@.node_ok(c));
            }
            let op = sys.opcode(c);
            if op == Opcode::FIFOPush {
                let fifo = sys.operand(c, 0);
                let value = sys.operand(c, 1);
                values.push(value);
                fifos.push(fifo);
            } else if op == Opcode::Bind {
                let callee = sys.operand(c, 0);
                proof {
                    assert(sys@.has(sys@.operands(c)[0]));
                }
                let b = sys.get_init_bind(callee);
                bind = Some(b);
                proof {
                    old(sys)@.lemma_grows_trans(before, sys@);
                }
            }
        }
        c += 1;
    }
    (bind, values, fifos)
}

/// Once cloning has failed it stays failed.
proof fn lemma_clone_body_err(st: CloneView, body: Seq<usize>, c: nat, d: nat)
    requires
        c <= d,
        clone_body(st, body, c).is_err(),
    ensures
        clone_body(st, body, d) == clone_body(st, body, c),
    decreases d,
{
    if c < d {
        lemma_clone_body_err(st, body, c, (d - 1) as nat);
    }
}

/// Clones the expressions of `body` with a key below `bound`, by rising key.
fn clone_stage_body(
    sys: &mut SysBuilder,
    body: &Vec<usize>,
    bound: usize,
    remap: &mut HashMap<usize, usize>,
    skipped: &mut Vec<usize>,
) -> (r: Result<Vec<usize>, PassError>)
    requires
        old(sys)@.wf(),
        old(sys)@.is_module(old(sys)@.current),
        bound <= old(sys)@.nodes.len(),
        valid_map(old(sys)@, old(remap)@),
    ensures
        match r {
            Ok(cloned) => clone_body(
                CloneView {
                    sys: old(sys)@,
                    remap: old(remap)@,
                    cloned: Seq::empty(),
                    skipped: old(skipped)@,
                },
                body@,
                bound as nat,
            ) == Ok::<CloneView, Failure>(
                CloneView {
                    sys: final(sys)@,
                    remap: final(remap)@,
                    cloned: cloned@,
                    skipped: final(skipped)@,
                },
            ) && valid_map(final(sys)@, final(remap)@),
            Err(e) => clone_body(
                CloneView {
                    sys: old(sys)@,
                    remap: old(remap)@,
                    cloned: Seq::empty(),
                    skipped: old(skipped)@,
                },
                body@,
                bound as nat,
            ) == Err::<CloneView, Failure>(failed(e, final(sys)@)),
        },
        final(sys)@.wf(),
        final(sys)@.current == old(sys)@.current,
        old(sys)@.grows_to(final(sys)@),
{
    let mut cloned: Vec<usize> = Vec::new();
    let ghost start = CloneView {
        sys: old(sys)@,
        remap: old(remap)@,
        cloned: Seq::empty(),
        skipped: old(skipped)@,
    };
    let mut c: usize = 0;
    proof {
        old(sys)@.lemma_grows_refl();
        assert(cloned@ =~= Seq::<usize>::empty());
    }
    while c < bound
        invariant
            c <= bound,
            bound <= old(sys)@.nodes.len(),
            start == (CloneView {
                sys: old(sys)@,
                remap: old(remap)@,
                cloned: Seq::empty(),
                skipped: old(skipped)@,
            }),
            clone_body(start, body@, c as nat) == Ok::<CloneView, Failure>(
                CloneView { sys: sys@, remap: remap@, cloned: cloned@, skipped: skipped@ },
            ),
            valid_map(sys@, remap@),
            sys@.wf(),
            sys@.current == old(sys)@.current,
            old(sys)@.is_module(old(sys)@.current),
            old(sys)@.grows_to(sys@),
        decreases bound - c,
    {
        let ghost before = sys@;
        let ghost st = CloneView { sys: sys@, remap: remap@, cloned: cloned@, skipped: skipped@ };
        proof {
            assert(old(sys)@.keeps(before, old(sys)@.current));
        }
        if has_key(body, c) && sys.is_expr(c) {
            proof {
                assert(sys@.node_ok(c));
                assert(sys@.has_all(sys@.operands(c)));
            }
            let op = sys.opcode(c);
            let mut made: Option<usize> = None;
            let mut missing = false;
            match op {
                Opcode::Binary { binop } => {
                    if binop == Binary::Add || binop == Binary::Sub || binop == Binary::Mul {
                        let a = sys.operand(c, 0);
                        let b = sys.operand(c, 1);
                        match (remap.get(&a), remap.get(&b)) {
                            (Some(x), Some(y)) => {
                                made = Some(sys.create_binary(binop, *x, *y));
                            },
                            _ => {
                                missing = true;
                            },
                        }
                    }
                },
                Opcode::Cast { cast } => {
                    if cast == Cast::BitCast {
                        let a = sys.operand(c, 0);
                        match remap.get(&a) {
                            Some(x) => {
                                made = Some(sys.create_bitcast(*x, DataType::Int(32)));
                            },
                            None => {
                                missing = true;
                            },
                        }
                    }
                },
                Opcode::Slice => {
                    let a = sys.operand(c, 0);
                    let lo = sys.operand(c, 1);
                    let hi = sys.operand(c, 2);
                    proof {
                        assert(sys@.has(sys@.operands(c)[1]));
                        assert(sys@.has(sys@.operands(c)[2]));
                    }
                    match remap.get(&a) {
                        Some(x) => {
                            made = Some(sys.create_slice(*x, lo, hi));
                        },
                        None => {
                            missing = true;
                        },
                    }
                },
                _ => {},
            }
            if missing {
                proof {
                    let gave_up = failed(PassError::MissingValue, st.sys);
                    assert(clone_one(st, c) == Err::<CloneView, Failure>(gave_up));
                    assert(clone_body(start, body@, (c + 1) as nat) == Err::<CloneView, Failure>(
                        gave_up,
                    ));
                    lemma_clone_body_err(start, body@, (c + 1) as nat, bound as nat);
                    old(sys)@.lemma_grows_trans(before, sys@);
                }
                return Err(PassError::MissingValue);
            }
            match made {
                Some(k) => {
                    remap.insert(c, k);
                    cloned.push(c);
                    proof {
                        assert(clone_one(st, c) == Ok::<CloneView, Failure>(
                            cloned_as(st, c, sys@),
                        ));
                    }
                },
                None => {
                    skipped.push(c);
                },
            }
            proof {
                old(sys)@.lemma_grows_trans(before, sys@);
            }
        }
        c += 1;
    }
    Ok(cloned)
}

/// Once the hand-on has failed it stays failed.
proof fn lemma_hand_on_err(
    handoff: Map<usize, usize>,
    remap: Map<usize, usize>,
    barriers: Seq<usize>,
    n: nat,
    m: nat,
)
    requires
        n <= m,
        hand_on(handoff, remap, barriers, n).is_err(),
    ensures
        hand_on(handoff, remap, barriers, m) == hand_on(handoff, remap, barriers, n),
    decreases m,
{
    if n < m {
        lemma_hand_on_err(handoff, remap, barriers, n, (m - 1) as nat);
    }
}

/// Hands to the next stage what stands for each of `barriers`.
fn hand_values_on(
    remap: &HashMap<usize, usize>,
    barriers: &Vec<usize>,
    handoff: &mut HashMap<usize, usize>,
    Ghost(sv): Ghost<SysView>,
) -> (r: Result<(), PassError>)
    requires
        valid_map(sv, remap@),
        valid_map(sv, old(handoff)@),
    ensures
        match r {
            Ok(()) => hand_on(old(handoff)@, remap@, barriers@, barriers@.len()) == Ok::<
                Map<usize, usize>,
                PassError,
            >(final(handoff)@) && valid_map(sv, final(handoff)@),
            Err(e) => hand_on(old(handoff)@, remap@, barriers@, barriers@.len()) == Err::<
                Map<usize, usize>,
                PassError,
            >(e),
        },
{
    let mut i: usize = 0;
    while i < barriers.len()
        invariant
            i <= barriers@.len(),
            hand_on(old(handoff)@, remap@, barriers@, i as nat) == Ok::<
                Map<usize, usize>,
                PassError,
            >(handoff@),
            valid_map(sv, remap@),
            valid_map(sv, handoff@),
        decreases barriers@.len() - i,
    {
        let p = barriers[i];
        match remap.get(&p) {
            Some(x) => {
                handoff.insert(p, *x);
            },
            None => {
                proof {
                    lemma_hand_on_err(
                        old(handoff)@,
                        remap@,
                        barriers@,
                        (i + 1) as nat,
                        barriers@.len(),
                    );
                }
                return Err(PassError::MissingValue);
            },
        }
        i += 1;
    }
    Ok(())
}

/// Once the hand-over has failed it stays failed.
proof fn lemma_hand_over_err(
    handoff: Map<usize, usize>,
    sv: SysView,
    barriers: Seq<usize>,
    n: nat,
    m: nat,
)
    requires
        n <= m,
        hand_over(handoff, sv, barriers, n).is_err(),
    ensures
        hand_over(handoff, sv, barriers, m) == hand_over(handoff, sv, barriers, n),
    decreases m,
{
    if n < m {
        lemma_hand_over_err(handoff, sv, barriers, n, (m - 1) as nat);
    }
}

/// Hands to the next stage each of `barriers` as it is in the source module.
fn hand_sources_over(sys: &SysBuilder, barriers: &Vec<usize>, handoff: &mut HashMap<usize, usize>) -> (r:
    Result<(), PassError>)
    requires
        valid_map(sys@, old(handoff)@),
    ensures
        match r {
            Ok(()) => hand_over(old(handoff)@, sys@, barriers@, barriers@.len()) == Ok::<
                Map<usize, usize>,
                PassError,
            >(final(handoff)@) && valid_map(sys@, final(handoff)@),
            Err(e) => hand_over(old(handoff)@, sys@, barriers@, barriers@.len()) == Err::<
                Map<usize, usize>,
                PassError,
            >(e),
        },
{
    let mut i: usize = 0;
    while i < barriers.len()
        invariant
            i <= barriers@.len(),
            hand_over(old(handoff)@, sys@, barriers@, i as nat) == Ok::<
                Map<usize, usize>,
                PassError,
            >(handoff@),
            valid_map(sys@, handoff@),
        decreases barriers@.len() - i,
    {
        let p = barriers[i];
        if p < sys.len() {
            handoff.insert(p, p);
        } else {
            proof {
                lemma_hand_over_err(
                    old(handoff)@,
                    sys@,
                    barriers@,
                    (i + 1) as nat,
                    barriers@.len(),
                );
            }
            return Err(PassError::DanglingKey);
        }
        i += 1;
    }
    Ok(())
}

/// Erases each of `keys`, in order.
fn erase_in_order(sys: &mut SysBuilder, keys: &Vec<usize>)
    requires
        old(sys)@.wf(),
    ensures
        final(sys)@ == erase_each(old(sys)@, keys@, keys@.len()),
        final(sys)@.wf(),
        final(sys)@.current == old(sys)@.current,
        old(sys)@.grows_to(final(sys)@),
{
    let mut i: usize = 0;
    proof {
        old(sys)@.lemma_grows_refl();
    }
    while i < keys.len()
        invariant
            i <= keys@.len(),
            sys@ == erase_each(old(sys)@, keys@, i as nat),
            sys@.wf(),
            sys@.current == old(sys)@.current,
            old(sys)@.grows_to(sys@),
        decreases keys@.len() - i,
    {
        let ghost before = sys@;
        sys.erase_from_parent(keys[i]);
        proof {
            old(sys)@.lemma_grows_trans(before, sys@);
        }
        i += 1;
    }
}

/// Erases each of `keys`, the last one first.
fn erase_backwards(sys: &mut SysBuilder, keys: &Vec<usize>)
    requires
        old(sys)@.wf(),
    ensures
        final(sys)@ == erase_back(old(sys)@, keys@, keys@.len()),
        final(sys)@.wf(),
        final(sys)@.current == old(sys)@.current,
        old(sys)@.grows_to(final(sys)@),
{
    let n = keys.len();
    let mut i: usize = 0;
    proof {
        old(sys)@.lemma_grows_refl();
    }
    while i < n
        invariant
            i <= n,
            n == keys@.len(),
            sys@ == erase_back(old(sys)@, keys@, i as nat),
            sys@.wf(),
            sys@.current == old(sys)@.current,
            old(sys)@.grows_to(sys@),
        decreases n - i,
    {
        let ghost before = sys@;
        sys.erase_from_parent(keys[n - 1 - i]);
        proof {
            old(sys)@.lemma_grows_trans(before, sys@);
        }
        i += 1;
    }
}

/// Erases those of `marks` with a key below `bound`, by falling key.
fn erase_marked(sys: &mut SysBuilder, marks: &Vec<usize>, bound: usize)
    requires
        old(sys)@.wf(),
    ensures
        final(sys)@ == erase_down(old(sys)@, marks@, bound as nat, bound as nat),
        final(sys)@.wf(),
        final(sys)@.current == old(sys)@.current,
        old(sys)@.grows_to(final(sys)@),
{
    let mut i: usize = 0;
    proof {
        old(sys)@.lemma_grows_refl();
    }
    while i < bound
        invariant
            i <= bound,
            sys@ == erase_down(old(sys)@, marks@, bound as nat, i as nat),
            sys@.wf(),
            sys@.current == old(sys)@.current,
            old(sys)@.grows_to(sys@),
        decreases bound - i,
    {
        let key = bound - 1 - i;
        if has_key(marks, key) {
            let ghost before = sys@;
            sys.erase_from_parent(key);
            proof {
                old(sys)@.lemma_grows_trans(before, sys@);
            }
        }
        i += 1;
    }
}

/// Once the re-issue has failed it stays failed.
proof fn lemma_rebind_err(
    sv: SysView,
    bind: usize,
    values: Seq<usize>,
    fifos: Seq<usize>,
    remap: Map<usize, usize>,
    n: nat,
    m: nat,
)
    requires
        n <= m,
        rebind(sv, bind, values, fifos, remap, n).is_err(),
    ensures
        rebind(sv, bind, values, fifos, remap, m) == rebind(sv, bind, values, fifos, remap, n),
    decreases m,
{
    if n < m {
        lemma_rebind_err(sv, bind, values, fifos, remap, n, (m - 1) as nat);
    }
}

/// Issues the recorded pushes again on `bind`.
fn rebind_pushes(
    sys: &mut SysBuilder,
    bind: usize,
    values: &Vec<usize>,
    fifos: &Vec<usize>,
    remap: &HashMap<usize, usize>,
) -> (r: Result<(), PassError>)
    requires
        old(sys)@.wf(),
        old(sys)@.is_module(old(sys)@.current),
        old(sys)@.is_bind(bind),
        values@.len() == fifos@.len(),
        valid_map(old(sys)@, remap@),
    ensures
        match r {
            Ok(()) => rebind(old(sys)@, bind, values@, fifos@, remap@, values@.len()) == Ok::<
                SysView,
                Failure,
            >(final(sys)@),
            Err(e) => rebind(old(sys)@, bind, values@, fifos@, remap@, values@.len()) == Err::<
                SysView,
                Failure,
            >(failed(e, final(sys)@)),
        },
        final(sys)@.wf(),
        final(sys)@.current == old(sys)@.current,
        old(sys)@.grows_to(final(sys)@),
{
    let n = values.len();
    let mut i: usize = 0;
    proof {
        old(sys)@.lemma_grows_refl();
    }
    while i < n
        invariant
            i <= n,
            n == values@.len(),
            values@.len() == fifos@.len(),
            rebind(old(sys)@, bind, values@, fifos@, remap@, i as nat) == Ok::<SysView, Failure>(sys@),
            valid_map(old(sys)@, remap@),
            sys@.wf(),
            sys@.current == old(sys)@.current,
            old(sys)@.is_module(old(sys)@.current),
            old(sys)@.is_bind(bind),
            old(sys)@.grows_to(sys@),
        decreases n - i,
    {
        let ghost before = sys@;
        proof {
            assert(old(sys)@.keeps(before, old(sys)@.current));
            assert(old(sys)@.keeps(before, bind));
        }
        let value = values[i];
        let fifo = fifos[i];
        let mut failure: Option<PassError> = None;
        match remap.get(&value) {
            None => {
                failure = Some(PassError::MissingValue);
            },
            Some(x) => {
                if !sys.is_fifo(fifo) {
                    failure = Some(PassError::DanglingKey);
                } else {
                    let name = sys.fifo_name(fifo);
                    match sys.bind_arg(bind, name.as_str(), *x) {
                        None => {
                            failure = Some(PassError::MissingPort);
                        },
                        Some(_) => {},
                    }
                }
            },
        }
        proof {
            old(sys)@.lemma_grows_trans(before, sys@);
        }
        match failure {
            Some(e) => {
                proof {
                    lemma_rebind_err(old(sys)@, bind, values@, fifos@, remap@, (i + 1) as nat, n as nat);
                }
                return Err(e);
            },
            None => {},
        }
        i += 1;
    }
    Ok(())
}

/// Lets the last stage take over from the source module.
fn finish_stage(
    sys: &mut SysBuilder,
    callers: &Vec<usize>,
    cloned: &Vec<usize>,
    bind: Option<usize>,
    values: &Vec<usize>,
    fifos: &Vec<usize>,
    remap: &HashMap<usize, usize>,
    bound: usize,
    Ghost(scanned): Ghost<SysView>,
) -> (r: Result<(), PassError>)
    requires
        old(sys)@.wf(),
        old(sys)@.is_module(old(sys)@.current),
        values@.len() == fifos@.len(),
        valid_map(old(sys)@, remap@),
        match bind {
            Some(b) => old(sys)@.is_bind(b),
            None => true,
        },
    ensures
        match r {
            Ok(()) => finish(
                old(sys)@,
                callers@,
                cloned@,
                ScanView { sys: scanned, bind, values: values@, fifos: fifos@ },
                remap@,
                bound as nat,
            ) == Ok::<SysView, Failure>(final(sys)@),
            Err(e) => finish(
                old(sys)@,
                callers@,
                cloned@,
                ScanView { sys: scanned, bind, values: values@, fifos: fifos@ },
                remap@,
                bound as nat,
            ) == Err::<SysView, Failure>(failed(e, final(sys)@)),
        },
        final(sys)@.wf(),
        final(sys)@.current == old(sys)@.current,
        old(sys)@.grows_to(final(sys)@),
{
    erase_marked(sys, callers, bound);
    let ghost s1 = sys@;
    erase_backwards(sys, cloned);
    let ghost s2 = sys@;
    proof {
        old(sys)@.lemma_grows_trans(s1, s2);
        assert(old(sys)@.keeps(s2, old(sys)@.current));
    }
    match bind {
        None => Ok(()),
        Some(b) => {
            proof {
                assert(old(sys)@.keeps(s2, b));
                assert forall|k: usize| remap@.contains_key(k) implies s2.has(
                    #[trigger] remap@[k],
                ) by {
                    assert(old(sys)@.has(remap@[k]));
                }
            }
            match rebind_pushes(sys, b, values, fifos, remap) {
                Err(e) => {
                    proof {
                        old(sys)@.lemma_grows_trans(s2, sys@);
                    }
                    Err(e)
                },
                Ok(()) => {
                    let ghost s3 = sys@;
                    proof {
                        old(sys)@.lemma_grows_trans(s2, s3);
                        assert(old(sys)@.keeps(s3, old(sys)@.current));
                        assert(old(sys)@.has(b));
                    }
                    sys.create_async_call(b);
                    proof {
                        old(sys)@.lemma_grows_trans(s3, sys@);
                    }
                    Ok(())
                },
            }
        },
    }
}


/// What the stage before hands over for each of `ports`, and the ports that
/// the stage module gets for them. `None` where a port has nothing handed over.
fn stage_inputs(sys: &SysBuilder, handoff: &HashMap<usize, usize>, ports: &Vec<usize>) -> (r:
    Option<(Vec<usize>, Vec<PortInfo>)>)
    requires
        valid_map(sys@, handoff@),
    ensures
        match r {
            Some((values, infos)) => hands_all(handoff@, ports@) && values@ == handed(
                handoff@,
                ports@,
            ) && port_views(infos@) == stage_ports(sys@, ports@, values@) && sys@.has_all(values@),
            None => !hands_all(handoff@, ports@),
        },
{
    let mut values: Vec<usize> = Vec::new();
    let mut infos: Vec<PortInfo> = Vec::new();
    let mut i: usize = 0;
    while i < ports.len()
        invariant
            i <= ports@.len(),
            values@.len() == i,
            infos@.len() == i,
            valid_map(sys@, handoff@),
            forall|j: int| 0 <= j < i ==> handoff@.contains_key(#[trigger] ports@[j]),
            forall|j: int| 0 <= j < i ==> #[trigger] values@[j] == handoff@[ports@[j]],
            forall|j: int|
                0 <= j < i ==> (#[trigger] infos@[j])@ == stage_ports(sys@, ports@, values@)[j],
        decreases ports@.len() - i,
    {
        let p = ports[i];
        match handoff.get(&p) {
            None => {
                return None;
            },
            Some(x) => {
                let value = *x;
                let dtype = sys.dtype(value);
                let ghost before = values@;
                values.push(value);
                infos.push(PortInfo { name: buffered_port_name(p), dtype });
                proof {
                    assert forall|j: int| 0 <= j < i + 1 implies (#[trigger] infos@[j])@
                        == stage_ports(sys@, ports@, values@)[j] by {
                        if j < i {
                            assert(values@[j] == before[j]);
                            assert(stage_ports(sys@, ports@, before)[j] == stage_ports(
                                sys@,
                                ports@,
                                values@,
                            )[j]);
                        }
                    }
                }
            },
        }
        i += 1;
    }
    proof {
        assert(values@ =~= handed(handoff@, ports@));
        assert(port_views(infos@) =~= stage_ports(sys@, ports@, values@));
    }
    Some((values, infos))
}

/// Rewrites the stage at level `k`, which is above 0.
fn rewrite_stage(
    sys: &mut SysBuilder,
    c: &SubModuleContainer,
    calls: &Vec<usize>,
    k: usize,
    stage: &SubModule,
    handoff: &mut HashMap<usize, usize>,
    modules: &mut Vec<usize>,
    skipped: &mut Vec<usize>,
) -> (r: Result<(), PassError>)
    requires
        old(sys)@.wf(),
        0 < k <= old(modules)@.len(),
        k < c@.order.len(),
        forall|i: int|
            0 <= i < old(modules)@.len() ==> old(sys)@.is_module(#[trigger] old(modules)@[i]),
        valid_map(old(sys)@, old(handoff)@),
    ensures
        match r {
            Ok(()) => run_stage(
                RunView {
                    calls: calls@,
                    sys: old(sys)@,
                    handoff: old(handoff)@,
                    modules: old(modules)@,
                    skipped: old(skipped)@,
                },
                c@,
                k as nat,
                stage@,
            ) == Ok::<RunView, Failure>(
                RunView {
                    calls: calls@,
                    sys: final(sys)@,
                    handoff: final(handoff)@,
                    modules: final(modules)@,
                    skipped: final(skipped)@,
                },
            ) && valid_map(final(sys)@, final(handoff)@)
                && final(modules)@.len() == old(modules)@.len() + 1 && (forall|i: int|
                0 <= i < final(modules)@.len() ==> final(sys)@.is_module(
                    #[trigger] final(modules)@[i],
                )),
            Err(e) => run_stage(
                RunView {
                    calls: calls@,
                    sys: old(sys)@,
                    handoff: old(handoff)@,
                    modules: old(modules)@,
                    skipped: old(skipped)@,
                },
                c@,
                k as nat,
                stage@,
            ) == Err::<RunView, Failure>(failed(e, final(sys)@)),
        },
        final(sys)@.wf(),
        old(sys)@.grows_to(final(sys)@),
{
    let ghost run = RunView {
        calls: calls@,
        sys: old(sys)@,
        handoff: old(handoff)@,
        modules: old(modules)@,
        skipped: old(skipped)@,
    };
    let ghost s0 = sys@;
    proof {
        s0.lemma_grows_refl();
    }
    let saved = sys.current_module();
    let ports = stage.buffered_ports();
    let (values, infos) = match stage_inputs(sys, handoff, ports) {
        None => {
            return Err(PassError::MissingHandoff);
        },
        Some(found) => found,
    };
    let bound = sys.len();
    let name = stage_module_name(c.module_name().as_str(), k);
    let pred = modules[k - 1];
    let levels = c.sub_module_order().len();
    let last = k + 1 == levels;
    let m = sys.create_module(name.as_str(), infos);
    let ghost s1 = sys@;
    let fifos = sys.ports(m);
    proof {
        assert(fifos@ =~= fifos_of(m, ports@.len()));
        assert(s1.node_ok(m));
        assert forall|i: int| 0 <= i < fifos@.len() implies s1.has(#[trigger] fifos@[i]) by {
            assert(s1.is_fifo(s1.ports(m)[i]));
        }
    }
    sys.set_current_module(m);
    let ghost s2 = sys@;
    emit_handshake(sys, &fifos);
    let ghost s3 = sys@;
    proof {
        s0.lemma_grows_trans(s1, s2);
        s0.lemma_grows_trans(s2, s3);
        assert(s0.keeps(s3, pred));
        assert(s2.keeps(s3, m));
        assert forall|i: int| 0 <= i < values@.len() implies s3.has(#[trigger] values@[i]) by {
            assert(s0.has(values@[i]));
        }
    }
    emit_stitch(sys, pred, m, &fifos, &values);
    let ghost s4 = sys@;
    handoff.clear();
    proof {
        s0.lemma_grows_trans(s3, s4);
        s2.lemma_grows_trans(s3, s4);
        assert(s2.keeps(s4, m));
    }
    sys.set_current_module(m);
    let ghost s5 = sys@;
    let mut remap = emit_pops(sys, ports, &fifos);
    let ghost s6 = sys@;
    proof {
        s0.lemma_grows_trans(s4, s5);
        s0.lemma_grows_trans(s5, s6);
        s2.lemma_grows_trans(s4, s5);
        s2.lemma_grows_trans(s5, s6);
        assert(s2.keeps(s6, m));
        assert(s6 == stage_entry(s0, name@, pred, ports@, values@));
        assert(remap@ == stage_remap(s0, name@, pred, ports@, values@));
    }
    let mut bind: Option<usize> = None;
    let mut pushed: Vec<usize> = Vec::new();
    let mut targets: Vec<usize> = Vec::new();
    if last {
        let (b, v, f) = scan_caller_exprs(sys, calls, bound);
        bind = b;
        pushed = v;
        targets = f;
    }
    let ghost s7 = sys@;
    let ghost scan = ScanView { sys: s7, bind, values: pushed@, fifos: targets@ };
    proof {
        assert(pushed@ =~= scan.values);
        if !last {
            assert(pushed@ =~= Seq::<usize>::empty());
            assert(targets@ =~= Seq::<usize>::empty());
        }
        s0.lemma_grows_trans(s6, s7);
        s2.lemma_grows_trans(s6, s7);
        assert(s2.keeps(s7, m));
        assert forall|x: usize| remap@.contains_key(x) implies s7.has(#[trigger] remap@[x]) by {
            assert(s6.has(remap@[x]));
        }
    }
    let cloned = match clone_stage_body(sys, stage.buffered_expr(), bound, &mut remap, skipped) {
        Err(e) => {
            proof {
                s0.lemma_grows_trans(s7, sys@);
            }
            return Err(e);
        },
        Ok(cloned) => cloned,
    };
    let ghost s8 = sys@;
    proof {
        s0.lemma_grows_trans(s7, s8);
        s2.lemma_grows_trans(s7, s8);
        assert(s2.keeps(s8, m));
    }
    match hand_values_on(&remap, stage.buffered_barriers(), handoff, Ghost(s8)) {
        Err(e) => {
            return Err(e);
        },
        Ok(()) => {},
    }
    if last {
        proof {
            assert(s7.grows_to(s8));
            match bind {
                Some(b) => {
                    assert(s7.keeps(s8, b));
                },
                None => {},
            }
        }
        match finish_stage(
            sys,
            c.caller_expr(),
            &cloned,
            bind,
            &pushed,
            &targets,
            &remap,
            bound,
            Ghost(s7),
        ) {
            Err(e) => {
                proof {
                    s0.lemma_grows_trans(s8, sys@);
                }
                return Err(e);
            },
            Ok(()) => {},
        }
    }
    let ghost s9a = sys@;
    sys.set_current_module(saved);
    let ghost s9 = sys@;
    let ghost before = modules@;
    modules.push(m);
    proof {
        s0.lemma_grows_trans(s8, s9a);
        s2.lemma_grows_trans(s8, s9a);
        s0.lemma_grows_trans(s9a, s9);
        s2.lemma_grows_trans(s9a, s9);
        assert(s2.keeps(s9, m));
        assert forall|i: int| 0 <= i < modules@.len() implies s9.is_module(
            #[trigger] modules@[i],
        ) by {
            if i < before.len() {
                assert(s0.is_module(before[i]));
                assert(s0.keeps(s9, before[i]));
            }
        }
        assert forall|x: usize| handoff@.contains_key(x) implies s9.has(
            #[trigger] handoff@[x],
        ) by {
            assert(s8.has(handoff@[x]));
        }
    }
    Ok(())
}

/// Once the rewrite of a module has failed it stays failed.
proof fn lemma_run_levels_err(run: RunView, c: ContainerView, n: nat, m: nat)
    requires
        n <= m,
        run_levels(run, c, n).is_err(),
    ensures
        run_levels(run, c, m) == run_levels(run, c, n),
    decreases m,
{
    if n < m {
        lemma_run_levels_err(run, c, n, (m - 1) as nat);
    }
}

/// Rewrites the module `source` by the stages of `c`.
fn rewrite_one(
    sys: &mut SysBuilder,
    source: usize,
    c: &SubModuleContainer,
    created: &mut Vec<usize>,
    skipped: &mut Vec<usize>,
) -> (r: Result<(), PassError>)
    requires
        old(sys)@.wf(),
    ensures
        match r {
            Ok(()) => match rewrite_module(old(sys)@, old(skipped)@, source, c@) {
                Ok(run) => run.sys == final(sys)@ && run.skipped == final(skipped)@
                    && final(created)@ == old(created)@ + run.modules.skip(1),
                Err(_) => false,
            },
            Err(e) => rewrite_module(old(sys)@, old(skipped)@, source, c@) == Err::<
                RunView,
                Failure,
            >(failed(e, final(sys)@)),
        },
        final(sys)@.wf(),
        old(sys)@.grows_to(final(sys)@),
{
    proof {
        old(sys)@.lemma_grows_refl();
    }
    if !sys.is_module(source) {
        return Err(PassError::DanglingKey);
    }
    let ghost s0 = sys@;
    let calls = called_by_index(sys, c.caller_expr());
    erase_in_order(sys, c.barrier_expr());
    let ghost s1 = sys@;
    let mut handoff: HashMap<usize, usize> = HashMap::new();
    let mut modules: Vec<usize> = Vec::new();
    modules.push(source);
    let ghost run = RunView {
        calls: calls@,
        sys: s1,
        handoff: Map::empty(),
        modules: seq![source],
        skipped: old(skipped)@,
    };
    let order = c.sub_module_order();
    let n = order.len();
    let mut k: usize = 0;
    proof {
        assert(modules@ =~= seq![source]);
        assert(s0.keeps(s1, source));
    }
    while k < n
        invariant
            k <= n,
            n == c@.order.len(),
            order@ == c@.order,
            run == (RunView {
                calls: calls@,
                sys: s1,
                handoff: Map::empty(),
                modules: seq![source],
                skipped: old(skipped)@,
            }),
            old(sys)@.is_module(source),
            calls@ == keep_called(old(sys)@, c@.callers, c@.callers.len()),
            s1 == erase_each(old(sys)@, c@.barrier_exprs, c@.barrier_exprs.len()),
            run_levels(run, c@, k as nat) == Ok::<RunView, Failure>(
                RunView {
                    calls: calls@,
                    sys: sys@,
                    handoff: handoff@,
                    modules: modules@,
                    skipped: skipped@,
                },
            ),
            modules@.len() >= 1,
            k >= 1 ==> modules@.len() == k,
            forall|i: int| 0 <= i < modules@.len() ==> sys@.is_module(#[trigger] modules@[i]),
            valid_map(sys@, handoff@),
            sys@.wf(),
            old(sys)@.grows_to(s1),
            s1.grows_to(sys@),
        decreases n - k,
    {
        let ghost before = sys@;
        let ghost cur = RunView {
            calls: calls@,
            sys: sys@,
            handoff: handoff@,
            modules: modules@,
            skipped: skipped@,
        };
        let outcome = match c.sub_module_map().get(order[k]) {
            None => Err(PassError::MissingStage),
            Some(stage) => {
                if k == 0 {
                    hand_sources_over(sys, stage.buffered_barriers(), &mut handoff)
                } else {
                    rewrite_stage(sys, c, &calls, k, stage, &mut handoff, &mut modules, skipped)
                }
            },
        };
        proof {
            s1.lemma_grows_trans(before, sys@);
        }
        match outcome {
            Err(e) => {
                proof {
                    assert(run_level(cur, c@, k as nat) == Err::<RunView, Failure>(failed(e, sys@)));
                    lemma_run_levels_err(run, c@, (k + 1) as nat, n as nat);
                    old(sys)@.lemma_grows_trans(s1, sys@);
                }
                return Err(e);
            },
            Ok(()) => {},
        }
        k += 1;
    }
    let mut i: usize = 1;
    while i < modules.len()
        invariant
            1 <= i <= modules@.len(),
            created@ == old(created)@ + modules@.subrange(1, i as int),
        decreases modules@.len() - i,
    {
        created.push(modules[i]);
        assert(modules@.subrange(1, i + 1) =~= modules@.subrange(1, i as int).push(
            modules@[i as int],
        ));
        assert(created@ =~= old(created)@ + modules@.subrange(1, i + 1));
        i += 1;
    }
    proof {
        assert(modules@.subrange(1, modules@.len() as int) =~= modules@.skip(1));
        old(sys)@.lemma_grows_trans(s1, sys@);
    }
    Ok(())
}

/// What a run of the rewrite reports.
#[derive(Debug, Clone)]
pub struct CutReport {
    /// The keys of the stage modules that were made, in the order they were made.
    pub created: Vec<usize>,
    /// The keys of the expressions that could not be cloned into their
    /// stage, because their opcode is not supported there.
    pub skipped: Vec<usize>,
}

/// The model of each container in `map`.
pub open spec fn container_views(map: Map<usize, SubModuleContainer>) -> Map<usize, ContainerView> {
    map.map_values(|c: SubModuleContainer| c@)
}

/// Once the rewrite has failed it stays failed.
proof fn lemma_cut_upto_err(st: OutcomeView, map: Map<usize, ContainerView>, n: nat, m: nat)
    requires
        n <= m,
        cut_upto(st, map, n).is_err(),
    ensures
        cut_upto(st, map, m) == cut_upto(st, map, n),
    decreases m,
{
    if n < m {
        lemma_cut_upto_err(st, map, n, (m - 1) as nat);
    }
}

/// Rewrites every module of `sys` that `map` has a container for, by rising
/// key. On failure the system is left as the rewrite had it, well formed
/// and with every node it had before.
pub fn cut_all(sys: &mut SysBuilder, map: &HashMap<usize, SubModuleContainer>) -> (r: Result<
    CutReport,
    PassError,
>)
    requires
        old(sys)@.wf(),
    ensures
        match r {
            Ok(report) => cut(old(sys)@, container_views(map@)) == Ok::<OutcomeView, Failure>(
                OutcomeView {
                    sys: final(sys)@,
                    created: report.created@,
                    skipped: report.skipped@,
                },
            ),
            Err(e) => cut(old(sys)@, container_views(map@)) == Err::<OutcomeView, Failure>(
                failed(e, final(sys)@),
            ),
        },
        final(sys)@.wf(),
        old(sys)@.grows_to(final(sys)@),
{
    let mut created: Vec<usize> = Vec::new();
    let mut skipped: Vec<usize> = Vec::new();
    let n = sys.len();
    let ghost views = container_views(map@);
    let ghost start = OutcomeView { sys: old(sys)@, created: Seq::empty(), skipped: Seq::empty() };
    let mut key: usize = 0;
    proof {
        old(sys)@.lemma_grows_refl();
        assert(created@ =~= Seq::<usize>::empty());
        assert(skipped@ =~= Seq::<usize>::empty());
    }
    while key < n
        invariant
            key <= n,
            n == old(sys)@.nodes.len(),
            views == container_views(map@),
            start == (OutcomeView {
                sys: old(sys)@,
                created: Seq::empty(),
                skipped: Seq::empty(),
            }),
            cut_upto(start, views, key as nat) == Ok::<OutcomeView, Failure>(
                OutcomeView { sys: sys@, created: created@, skipped: skipped@ },
            ),
            sys@.wf(),
            old(sys)@.grows_to(sys@),
        decreases n - key,
    {
        let ghost before = sys@;
        match map.get(&key) {
            None => {
                assert(!views.contains_key(key));
            },
            Some(c) => {
                assert(views.contains_key(key) && views[key] == c@);
                match rewrite_one(sys, key, c, &mut created, &mut skipped) {
                    Err(e) => {
                        proof {
                            lemma_cut_upto_err(start, views, (key + 1) as nat, n as nat);
                            old(sys)@.lemma_grows_trans(before, sys@);
                        }
                        return Err(e);
                    },
                    Ok(()) => {},
                }
                proof {
                    old(sys)@.lemma_grows_trans(before, sys@);
                }
            },
        }
        key += 1;
    }
    Ok(CutReport { created, skipped })
}


/// Rewrites the modules of a system that an analysis found stages for.
pub struct CutModules<'a> {
    pub sys: &'a mut SysBuilder,
    pub submodule_container_map: HashMap<usize, SubModuleContainer>,
}

impl<'a> CutModules<'a> {
    /// The containers, by the key of the module they are about.
    pub open spec fn containers(&self) -> Map<usize, ContainerView> {
        container_views(self.submodule_container_map@)
    }

    /// A rewriter of `sys` without containers.
    pub fn new(sys: &'a mut SysBuilder) -> (r: Self)
        ensures
            r.sys@ == old(sys)@,
            final(r.sys)@ == final(sys)@,
            r.containers() == Map::<usize, ContainerView>::empty(),
    {
        let r = Self { sys, submodule_container_map: HashMap::new() };
        assert(r.containers() =~= Map::<usize, ContainerView>::empty());
        r
    }

    /// Takes the containers that the rewrite is to go by.
    pub fn set_submodule_container_map(
        &mut self,
        submodule_container_map: HashMap<usize, SubModuleContainer>,
    )
        ensures
            final(self).containers() == container_views(submodule_container_map@),
            final(self).sys@ == old(self).sys@,
            final(final(self).sys)@ == final(old(self).sys)@,
    {
        self.submodule_container_map = submodule_container_map;
    }

    /// Is there a container for the module with key `key`?
    pub fn is_submodule_valid(&self, key: usize) -> (r: bool)
        ensures
            r == self.containers().contains_key(key),
    {
        self.submodule_container_map.contains_key(&key)
    }

    /// Can the expression `expr` be cloned with `node_map` standing for its
    /// operands? Every expression is taken as it comes: one that cannot be
    /// cloned is found when the rewrite reaches it.
    pub fn is_expr_valid(&self, node_map: &HashMap<usize, usize>, expr: usize) -> (r: bool)
        ensures
            r,
    {
        true
    }

    /// Rewrites every module that has a container, by rising key of the
    /// module. On failure the system is left as the rewrite had it, well
    /// formed and with every node it had before.
    pub fn cut_modules(&mut self) -> (r: Result<CutReport, PassError>)
        requires
            old(self).sys@.wf(),
        ensures
            match r {
                Ok(report) => cut(old(self).sys@, old(self).containers()) == Ok::<
                    OutcomeView,
                    Failure,
                >(
                    OutcomeView {
                        sys: final(self).sys@,
                        created: report.created@,
                        skipped: report.skipped@,
                    },
                ),
                Err(e) => cut(old(self).sys@, old(self).containers()) == Err::<OutcomeView, Failure>(
                    failed(e, final(self).sys@),
                ),
            },
            final(self).sys@.wf(),
            old(self).sys@.grows_to(final(self).sys@),
            final(self).containers() == old(self).containers(),
            final(final(self).sys)@ == final(old(self).sys)@,
    {
        cut_all(&mut *self.sys, &self.submodule_container_map)
    }
}

} // verus!
