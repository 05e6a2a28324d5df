//! What the rewrite does to a system, stated on the system's model: the
//! handshake at a stage's entry, the call that links a stage to the one
//! before it, the clones of a stage's body, and the hand-over of the calls
//! that the source module made.

use crate::error::PassError;
use crate::ir::{Binary, Cast, DataType, Opcode, PortView, SysView};
use crate::callers::keep_called;
use crate::stage::{ContainerView, StageView};
use crate::text::{buffered_name, stage_name};
use vstd::prelude::*;

verus! {

/// How the rewrite gave up: why, and the system as it was left.
pub struct Failure {
    pub error: PassError,
    pub sys: SysView,
}

/// The failure with `error` that leaves the system `sys`.
pub open spec fn failed(error: PassError, sys: SysView) -> Failure {
    Failure { error, sys }
}

/// The system after a probe of each of the first `n` of `fifos` and, from the
/// second on, the conjunction of each probe with those before it.
pub open spec fn probes(sv: SysView, fifos: Seq<usize>, n: nat) -> SysView
    decreases n,
{
    if n == 0 {
        sv
    } else if n == 1 {
        sv.emit_valid(fifos[0])
    } else {
        let prev = probes(sv, fifos, (n - 1) as nat);
        prev.emit_valid(fifos[n - 1]).emit_binary(
            Binary::BitwiseAnd,
            all_valid(sv, fifos, (n - 1) as nat),
            prev.next_key(),
        )
    }
}

/// The key of the value that tells whether all of the first `n` of `fifos`
/// hold a value, for `n` at least 1.
pub open spec fn all_valid(sv: SysView, fifos: Seq<usize>, n: nat) -> usize
    decreases n,
{
    if n <= 1 {
        sv.next_key()
    } else {
        probes(sv, fifos, (n - 1) as nat).emit_valid(fifos[n - 1]).next_key()
    }
}

/// The system after the handshake on `fifos`: the probes, their
/// conjunction, and one wait on it. Without a FIFO there is nothing to wait for.
pub open spec fn handshake(sv: SysView, fifos: Seq<usize>) -> SysView {
    if fifos.len() == 0 {
        sv
    } else {
        probes(sv, fifos, fifos.len()).emit_wait(all_valid(sv, fifos, fifos.len()))
    }
}

/// The system after the first `n` of `values` were bound to the first `n` of
/// `fifos` as arguments of `bind`.
pub open spec fn bind_each(
    sv: SysView,
    bind: usize,
    fifos: Seq<usize>,
    values: Seq<usize>,
    n: nat,
) -> SysView
    decreases n,
{
    if n == 0 {
        sv
    } else {
        bind_each(sv, bind, fifos, values, (n - 1) as nat).bind_to(
            bind,
            fifos[n - 1],
            values[n - 1],
        )
    }
}

/// The system after the module `pred` got the call of the stage module `m`:
/// a bind to `m`, one argument for each FIFO, and the call that fires it.
/// The cursor is left on `pred`.
pub open spec fn stitch(
    sv: SysView,
    pred: usize,
    m: usize,
    fifos: Seq<usize>,
    values: Seq<usize>,
) -> SysView {
    let bind = sv.next_key();
    bind_each(sv.with_current(pred).emit_bind(m), bind, fifos, values, fifos.len()).emit_call(bind)
}

/// The system after a pop of each of the first `n` of `fifos`.
pub open spec fn pop_each(sv: SysView, fifos: Seq<usize>, n: nat) -> SysView
    decreases n,
{
    if n == 0 {
        sv
    } else {
        pop_each(sv, fifos, (n - 1) as nat).emit_pop(fifos[n - 1])
    }
}

/// For each of the first `n` of `ports`, the key of the pop that stands for
/// it inside the stage.
pub open spec fn pop_remap(sv: SysView, ports: Seq<usize>, fifos: Seq<usize>, n: nat) -> Map<
    usize,
    usize,
>
    decreases n,
{
    if n == 0 {
        Map::empty()
    } else {
        pop_remap(sv, ports, fifos, (n - 1) as nat).insert(
            ports[n - 1],
            pop_each(sv, fifos, (n - 1) as nat).next_key(),
        )
    }
}

/// What the last stage learns from the calls of the source module: the bind
/// it re-issues them on, and for each push its value and the FIFO it went to.
pub struct ScanView {
    pub sys: SysView,
    pub bind: Option<usize>,
    pub values: Seq<usize>,
    pub fifos: Seq<usize>,
}

/// The scan after the caller expression `c`. A push records its value and
/// its FIFO, one pair for each push; a bind makes the stage bind to the
/// same callee, in place of an earlier bind.
pub open spec fn scan_one(st: ScanView, c: usize) -> ScanView {
    if !st.sys.is_expr(c) {
        st
    } else if st.sys.opcode(c) == Opcode::FIFOPush {
        ScanView {
            values: st.values.push(st.sys.operands(c)[1]),
            fifos: st.fifos.push(st.sys.operands(c)[0]),
            ..st
        }
    } else if st.sys.opcode(c) == Opcode::Bind {
        ScanView {
            sys: st.sys.emit_bind(st.sys.operands(c)[0]),
            bind: Some(st.sys.next_key()),
            ..st
        }
    } else {
        st
    }
}

/// The scan after the caller expressions with a key below `c`, by rising key.
pub open spec fn scan_callers(st: ScanView, callers: Seq<usize>, c: nat) -> ScanView
    decreases c,
{
    if c == 0 {
        st
    } else {
        let prev = scan_callers(st, callers, (c - 1) as nat);
        if callers.contains((c - 1) as usize) {
            scan_one(prev, (c - 1) as usize)
        } else {
            prev
        }
    }
}

/// The state of cloning a stage's body: for each value the key that stands
/// for it inside the stage, the expressions cloned so far, and those that
/// could not be cloned.
pub struct CloneView {
    pub sys: SysView,
    pub remap: Map<usize, usize>,
    pub cloned: Seq<usize>,
    pub skipped: Seq<usize>,
}

/// The state after `c` was cloned as the expression that `sys` has last.
pub open spec fn cloned_as(st: CloneView, c: usize, sys: SysView) -> CloneView {
    CloneView {
        sys,
        remap: st.remap.insert(c, st.sys.next_key()),
        cloned: st.cloned.push(c),
        skipped: st.skipped,
    }
}

/// The state after the body expression `c` was looked at. An addition, a
/// subtraction, a multiplication, a bit cast or a slice is cloned with its
/// operands replaced by what stands for them in the stage (the bounds of a
/// slice stay as they are); the cast is to a signed integer of 32 bits. Any
/// other expression is skipped and noted. Fails where an operand has
/// nothing standing for it.
pub open spec fn clone_one(st: CloneView, c: usize) -> Result<CloneView, Failure> {
    if !st.sys.is_expr(c) {
        Ok(st)
    } else {
        let ops = st.sys.operands(c);
        match st.sys.opcode(c) {
            Opcode::Binary { binop } => {
                if binop == Binary::Add || binop == Binary::Sub || binop == Binary::Mul {
                    if st.remap.contains_key(ops[0]) && st.remap.contains_key(ops[1]) {
                        Ok(
                            cloned_as(
                                st,
                                c,
                                st.sys.emit_binary(binop, st.remap[ops[0]], st.remap[ops[1]]),
                            ),
                        )
                    } else {
                        Err(failed(PassError::MissingValue, st.sys))
                    }
                } else {
                    Ok(CloneView { skipped: st.skipped.push(c), ..st })
                }
            },
            Opcode::Cast { cast } => {
                if cast == Cast::BitCast {
                    if st.remap.contains_key(ops[0]) {
                        Ok(
                            cloned_as(
                                st,
                                c,
                                st.sys.emit_bitcast(st.remap[ops[0]], DataType::Int(32)),
                            ),
                        )
                    } else {
                        Err(failed(PassError::MissingValue, st.sys))
                    }
                } else {
                    Ok(CloneView { skipped: st.skipped.push(c), ..st })
                }
            },
            Opcode::Slice => {
                if st.remap.contains_key(ops[0]) {
                    Ok(cloned_as(st, c, st.sys.emit_slice(st.remap[ops[0]], ops[1], ops[2])))
                } else {
                    Err(failed(PassError::MissingValue, st.sys))
                }
            },
            _ => Ok(CloneView { skipped: st.skipped.push(c), ..st }),
        }
    }
}

/// The state after the expressions of `body` with a key below `c` were
/// looked at, by rising key.
pub open spec fn clone_body(st: CloneView, body: Seq<usize>, c: nat) -> Result<
    CloneView,
    Failure,
>
    decreases c,
{
    if c == 0 {
        Ok(st)
    } else {
        match clone_body(st, body, (c - 1) as nat) {
            Err(e) => Err(e),
            Ok(prev) => if body.contains((c - 1) as usize) {
                clone_one(prev, (c - 1) as usize)
            } else {
                Ok(prev)
            },
        }
    }
}

/// The values handed to the next stage after the first `n` of `barriers`:
/// each with what stands for it in this stage. Fails where nothing does.
pub open spec fn hand_on(
    handoff: Map<usize, usize>,
    remap: Map<usize, usize>,
    barriers: Seq<usize>,
    n: nat,
) -> Result<Map<usize, usize>, PassError>
    decreases n,
{
    if n == 0 {
        Ok(handoff)
    } else {
        match hand_on(handoff, remap, barriers, (n - 1) as nat) {
            Err(e) => Err(e),
            Ok(h) => if remap.contains_key(barriers[n - 1]) {
                Ok(h.insert(barriers[n - 1], remap[barriers[n - 1]]))
            } else {
                Err(PassError::MissingValue)
            },
        }
    }
}

/// The values that stage 0 hands on after the first `n` of `barriers`: each
/// is its own value in the source module. Fails where a key addresses no node.
pub open spec fn hand_over(
    handoff: Map<usize, usize>,
    sv: SysView,
    barriers: Seq<usize>,
    n: nat,
) -> Result<Map<usize, usize>, PassError>
    decreases n,
{
    if n == 0 {
        Ok(handoff)
    } else {
        match hand_over(handoff, sv, barriers, (n - 1) as nat) {
            Err(e) => Err(e),
            Ok(h) => if sv.has(barriers[n - 1]) {
                Ok(h.insert(barriers[n - 1], barriers[n - 1]))
            } else {
                Err(PassError::DanglingKey)
            },
        }
    }
}

/// The system after the first `n` of `keys` were erased, in order.
pub open spec fn erase_each(sv: SysView, keys: Seq<usize>, n: nat) -> SysView
    decreases n,
{
    if n == 0 {
        sv
    } else {
        erase_each(sv, keys, (n - 1) as nat).erase(keys[n - 1])
    }
}

/// The system after the last `n` of `keys` were erased, the last one first.
pub open spec fn erase_back(sv: SysView, keys: Seq<usize>, n: nat) -> SysView
    decreases n,
{
    if n == 0 {
        sv
    } else {
        erase_back(sv, keys, (n - 1) as nat).erase(keys[keys.len() - n])
    }
}

/// The system after those of `marks` among the `n` greatest keys below
/// `bound` were erased, by falling key.
pub open spec fn erase_down(sv: SysView, marks: Seq<usize>, bound: nat, n: nat) -> SysView
    decreases n,
{
    if n == 0 {
        sv
    } else {
        let prev = erase_down(sv, marks, bound, (n - 1) as nat);
        let key = (bound - n) as usize;
        if marks.contains(key) {
            prev.erase(key)
        } else {
            prev
        }
    }
}

/// The system after the first `n` recorded pushes were issued again on
/// `bind`, each to the port of the callee that has the name of the FIFO it
/// was pushed to, with the value that stands for the pushed one in the
/// stage. Fails where nothing stands for a value, where what was pushed to
/// is no FIFO, or where the callee has no port of that name.
pub open spec fn rebind(
    sv: SysView,
    bind: usize,
    values: Seq<usize>,
    fifos: Seq<usize>,
    remap: Map<usize, usize>,
    n: nat,
) -> Result<SysView, Failure>
    decreases n,
{
    if n == 0 {
        Ok(sv)
    } else {
        match rebind(sv, bind, values, fifos, remap, (n - 1) as nat) {
            Err(e) => Err(e),
            Ok(s) => {
                let value = values[n - 1];
                let fifo = fifos[n - 1];
                if !remap.contains_key(value) {
                    Err(failed(PassError::MissingValue, s))
                } else if !s.is_fifo(fifo) {
                    Err(failed(PassError::DanglingKey, s))
                } else {
                    match s.bind_target(bind, s.fifo(fifo).name) {
                        None => Err(failed(PassError::MissingPort, s)),
                        Some(port) => Ok(s.bind_to(bind, port, remap[value])),
                    }
                }
            },
        }
    }
}

/// The system after the last stage took over from the source module: the
/// source module's caller expressions are erased by falling key, then the
/// expressions that the stage cloned, the last one first; then, if the
/// source module bound a callee, its pushes are issued again and the call
/// is fired.
pub open spec fn finish(
    sv: SysView,
    callers: Seq<usize>,
    cloned: Seq<usize>,
    scan: ScanView,
    remap: Map<usize, usize>,
    bound: nat,
) -> Result<SysView, Failure> {
    let erased = erase_back(erase_down(sv, callers, bound, bound), cloned, cloned.len());
    match scan.bind {
        None => Ok(erased),
        Some(bind) => match rebind(
            erased,
            bind,
            scan.values,
            scan.fifos,
            remap,
            scan.values.len(),
        ) {
            Err(e) => Err(e),
            Ok(s) => Ok(s.emit_call(bind)),
        },
    }
}

/// The state of the rewrite of one module: the system, the values waiting
/// to be handed to the next stage, the module of each level so far (the
/// source module at level 0), and the expressions that could not be cloned.
pub struct RunView {
    /// The caller expressions that the last stage scans: those of the
    /// container, without the binds that the call index does not know.
    pub calls: Seq<usize>,
    pub sys: SysView,
    pub handoff: Map<usize, usize>,
    pub modules: Seq<usize>,
    pub skipped: Seq<usize>,
}

/// Does the stage before hand over every one of `ports`?
pub open spec fn hands_all(handoff: Map<usize, usize>, ports: Seq<usize>) -> bool {
    forall|i: int| 0 <= i < ports.len() ==> handoff.contains_key(#[trigger] ports[i])
}

/// What is handed over for each of `ports`.
pub open spec fn handed(handoff: Map<usize, usize>, ports: Seq<usize>) -> Seq<usize> {
    Seq::new(ports.len(), |i: int| handoff[ports[i]])
}

/// The ports of a stage module: one for each of `ports`, named after its
/// key and typed as the value handed over for it.
pub open spec fn stage_ports(sv: SysView, ports: Seq<usize>, values: Seq<usize>) -> Seq<
    PortView,
> {
    Seq::new(
        ports.len(),
        |i: int| PortView { name: buffered_name(ports[i]), dtype: sv.dtype_of(values[i]) },
    )
}

/// The keys of the `n` FIFO ports of the module with key `m`.
pub open spec fn fifos_of(m: usize, n: nat) -> Seq<usize> {
    Seq::new(n, |i: int| (m + 1 + i) as usize)
}

/// The system when the stage at level `k` has its module, handshake, link
/// and pops, before anything of its body is cloned.
pub open spec fn stage_entry(
    sv: SysView,
    name: Seq<char>,
    pred: usize,
    ports: Seq<usize>,
    values: Seq<usize>,
) -> SysView {
    let m = sv.next_key();
    let fifos = fifos_of(m, ports.len());
    let made = sv.add_module(name, stage_ports(sv, ports, values)).with_current(m);
    let linked = stitch(handshake(made, fifos), pred, m, fifos, values).with_current(m);
    pop_each(linked, fifos, fifos.len())
}

/// What stands for each port of the stage at level `k` once the stage has
/// popped its FIFOs.
pub open spec fn stage_remap(
    sv: SysView,
    name: Seq<char>,
    pred: usize,
    ports: Seq<usize>,
    values: Seq<usize>,
) -> Map<usize, usize> {
    let m = sv.next_key();
    let fifos = fifos_of(m, ports.len());
    let made = sv.add_module(name, stage_ports(sv, ports, values)).with_current(m);
    let linked = stitch(handshake(made, fifos), pred, m, fifos, values).with_current(m);
    pop_remap(linked, ports, fifos, fifos.len())
}

/// The rewrite after the stage at level `k`, for `k` above 0, where the
/// level has the stage `stage`. The cursor is back where it was before the
/// stage.
pub open spec fn run_stage(run: RunView, c: ContainerView, k: nat, stage: StageView) -> Result<
    RunView,
    Failure,
> {
    if !hands_all(run.handoff, stage.ports) {
        Err(failed(PassError::MissingHandoff, run.sys))
    } else {
        let values = handed(run.handoff, stage.ports);
        let bound = run.sys.len();
        let m = run.sys.next_key();
        let name = stage_name(c.name, k as usize);
        let pred = run.modules[k - 1];
        let entry = stage_entry(run.sys, name, pred, stage.ports, values);
        let remap = stage_remap(run.sys, name, pred, stage.ports, values);
        let last = k + 1 == c.order.len();
        let start = ScanView { sys: entry, bind: None, values: Seq::empty(), fifos: Seq::empty() };
        let scan = if last {
            scan_callers(start, run.calls, bound)
        } else {
            start
        };
        match clone_body(
            CloneView { sys: scan.sys, remap, cloned: Seq::empty(), skipped: run.skipped },
            stage.body,
            bound,
        ) {
            Err(e) => Err(e),
            Ok(cl) => match hand_on(Map::empty(), cl.remap, stage.barriers, stage.barriers.len()) {
                Err(e) => Err(failed(e, cl.sys)),
                Ok(handoff) => {
                    let done = if last {
                        finish(cl.sys, c.callers, cl.cloned, scan, cl.remap, bound)
                    } else {
                        Ok(cl.sys)
                    };
                    match done {
                        Err(e) => Err(e),
                        Ok(sys) => Ok(
                            RunView {
                                calls: run.calls,
                                sys: sys.with_current(run.sys.current),
                                handoff,
                                modules: run.modules.push(m),
                                skipped: cl.skipped,
                            },
                        ),
                    }
                },
            },
        }
    }
}

/// The rewrite after level `k`. Level 0 emits nothing: it hands its values
/// on as they are in the source module.
pub open spec fn run_level(run: RunView, c: ContainerView, k: nat) -> Result<RunView, Failure> {
    if !c.table.has(c.order[k as int]) {
        Err(failed(PassError::MissingStage, run.sys))
    } else {
        let stage = c.table.get(c.order[k as int]);
        if k == 0 {
            match hand_over(run.handoff, run.sys, stage.barriers, stage.barriers.len()) {
                Err(e) => Err(failed(e, run.sys)),
                Ok(handoff) => Ok(RunView { handoff, ..run }),
            }
        } else {
            run_stage(run, c, k, stage)
        }
    }
}

/// The rewrite after the first `n` levels, from level 0 up.
pub open spec fn run_levels(run: RunView, c: ContainerView, n: nat) -> Result<RunView, Failure>
    decreases n,
{
    if n == 0 {
        Ok(run)
    } else {
        match run_levels(run, c, (n - 1) as nat) {
            Err(e) => Err(e),
            Ok(r) => run_level(r, c, (n - 1) as nat),
        }
    }
}

/// The rewrite of the module `source` by the stages of `c`: the call index
/// is consulted for the binds among the caller expressions, the barrier
/// markers are erased, then each level is rewritten in turn. Fails where
/// `source` is no module.
pub open spec fn rewrite_module(
    sv: SysView,
    skipped: Seq<usize>,
    source: usize,
    c: ContainerView,
) -> Result<RunView, Failure> {
    if !sv.is_module(source) {
        Err(failed(PassError::DanglingKey, sv))
    } else {
        run_levels(
            RunView {
                calls: keep_called(sv, c.callers, c.callers.len()),
                sys: erase_each(sv, c.barrier_exprs, c.barrier_exprs.len()),
                handoff: Map::empty(),
                modules: seq![source],
                skipped,
            },
            c,
            c.order.len(),
        )
    }
}

/// What a whole run of the rewrite leaves: the system, the stage modules it
/// made, in the order it made them, and the expressions it could not clone.
pub struct OutcomeView {
    pub sys: SysView,
    pub created: Seq<usize>,
    pub skipped: Seq<usize>,
}

/// The rewrite after the modules with a key below `n` were looked at, by
/// rising key: each that has a container is rewritten.
pub open spec fn cut_upto(st: OutcomeView, map: Map<usize, ContainerView>, n: nat) -> Result<
    OutcomeView,
    Failure,
>
    decreases n,
{
    if n == 0 {
        Ok(st)
    } else {
        match cut_upto(st, map, (n - 1) as nat) {
            Err(e) => Err(e),
            Ok(prev) => {
                let key = (n - 1) as usize;
                if map.contains_key(key) {
                    match rewrite_module(prev.sys, prev.skipped, key, map[key]) {
                        Err(e) => Err(e),
                        Ok(run) => Ok(
                            OutcomeView {
                                sys: run.sys,
                                created: prev.created + run.modules.skip(1),
                                skipped: run.skipped,
                            },
                        ),
                    }
                } else {
                    Ok(prev)
                }
            },
        }
    }
}

/// The whole rewrite of `sv` by the containers in `map`.
pub open spec fn cut(sv: SysView, map: Map<usize, ContainerView>) -> Result<OutcomeView, Failure> {
    cut_upto(OutcomeView { sys: sv, created: Seq::empty(), skipped: Seq::empty() }, map, sv.len())
}

} // verus!
