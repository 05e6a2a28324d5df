//! What holds of every module that the rewrite has split.

use crate::emission::{
    Failure,
    cut, cut_upto, fifos_of, handed, rewrite_module, run_levels, run_stage, OutcomeView, RunView,
};
use crate::callers::{is_indexed, keep_called, lemma_keep_called};
use crate::ir::{kept, barrier_opcode, wait_opcode, FifoView, NodeView, Opcode, SysView};
use crate::levels_shape::{
    container_within, lemma_levels_tail, lemma_run_start, lemma_stage_within, modules_after,
    run_start, stage_at,
};
use crate::shape::{
    all_below, advances, bound_below, closed_operands, fresh, handshake_class, is_call_of,
    is_cloneable, is_link_of, is_pop_of, is_push, is_push_of, is_repush, is_wait_on_all,
    lemma_and_reduction_kept, lemma_closed_kept, lemma_pushes_beyond, lemma_pushes_same,
    lemma_scan_exact, link_class, made, mixed, pop_class, pushed_below, pushed_fifos,
    pushed_values, pushes_below, span, stage_value, work_class,
};
use crate::stage::ContainerView;
use crate::staged::{
    clones_of, entered, entry_of, fires_from, lemma_run_stage, lemma_run_stage_gone, sound,
    stage_scan, took_over, worked,
};
use crate::text::{buffered_name, stage_name};
use vstd::prelude::*;

verus! {

/// The rewrite of the module `source` of `sv` by the stages of `c`, which
/// speaks of nodes below `lim` only, went well and left `run`; and `f` is
/// the system then or at any later time of the rewrite: a well-formed
/// system that `run.sys` advances to.
pub open spec fn rewritten(
    sv: SysView,
    skipped: Seq<usize>,
    source: usize,
    c: ContainerView,
    lim: nat,
    run: RunView,
    f: SysView,
) -> bool {
    &&& sv.wf()
    &&& lim <= sv.nodes.len()
    &&& container_within(c, lim)
    &&& rewrite_module(sv, skipped, source, c) == Ok::<RunView, Failure>(run)
    &&& f.wf()
    &&& advances(run.sys, f, lim, run.sys.nodes.len())
}

/// The state of the rewrite before the stage at level `k`.
pub open spec fn before(
    sv: SysView,
    skipped: Seq<usize>,
    source: usize,
    c: ContainerView,
    k: nat,
) -> RunView {
    run_levels(run_start(sv, skipped, source, c), c, k)->Ok_0
}

/// The values that the stage at level `k` gets from the stage before it,
/// one for each of its ports.
pub open spec fn inputs_of(
    sv: SysView,
    skipped: Seq<usize>,
    source: usize,
    c: ContainerView,
    k: nat,
) -> Seq<usize> {
    handed(before(sv, skipped, source, c, k).handoff, stage_at(c, k as int).ports)
}

/// The stage at level `k`, as the end of the rewrite has it: the states
/// before and after the stage are sound, the stage's entry and work are as
/// they were built, and everything after the stage is an advance.
pub proof fn lemma_stage_in_final(
    sv: SysView,
    skipped: Seq<usize>,
    source: usize,
    c: ContainerView,
    lim: nat,
    run: RunView,
    f: SysView,
    k: nat,
)
    requires
        rewritten(sv, skipped, source, c, lim, run, f),
        1 <= k < c.order.len(),
    ensures
        ({
            let a = before(sv, skipped, source, c, k);
            let b = before(sv, skipped, source, c, k + 1);
            let stage = stage_at(c, k as int);
            let e = entry_of(a, c, k, stage);
            let m = a.sys.next_key();
            &&& sound(a)
            &&& sound(b)
            &&& sound(run)
            &&& f.wf()
            &&& f.nodes.len() <= usize::MAX
            &&& e.wf()
            &&& e.current == m
            &&& e.is_module(m)
            &&& a.sys.nodes.len() >= sv.nodes.len()
            &&& m == a.sys.nodes.len()
            &&& run.modules.len() == c.order.len()
            &&& run.modules[k as int] == m
            &&& run.modules[k - 1] == a.modules[k - 1]
            &&& a.modules.len() == modules_after(k)
            &&& a.sys.is_module(a.modules[k - 1])
            &&& entered(
                a.sys,
                e,
                stage_name(c.name, k as usize),
                a.modules[k - 1],
                stage.ports,
                handed(a.handoff, stage.ports),
            )
            &&& worked(e, b.sys, m)
            &&& advances(sv, a.sys, lim, sv.nodes.len())
            &&& advances(a.sys, e, lim, a.sys.nodes.len())
            &&& advances(a.sys, b.sys, lim, a.sys.nodes.len())
            &&& advances(b.sys, f, lim, b.sys.nodes.len())
            &&& b.sys.nodes.len() <= run.sys.nodes.len() <= f.nodes.len()
            &&& a.sys.has_all(handed(a.handoff, stage.ports))
            &&& a.calls == keep_called(sv, c.callers, c.callers.len())
            &&& all_below(a.calls, lim)
            &&& crate::shape::within(a.calls, c.callers)
            &&& k + 1 == c.order.len() ==> b == run && took_over(
                e,
                b.sys,
                m,
                a.calls,
                a.sys.nodes.len(),
                stage_scan(e, a.calls, a.sys.nodes.len(), true),
                clones_of(a, c, k, stage).remap,
            )
        }),
{
    let n = c.order.len();
    let run0 = run_start(sv, skipped, source, c);
    lemma_run_start(sv, skipped, source, c, lim);
    assert(run == run_levels(run0, c, n)->Ok_0);
    assert(run.sys.nodes.len() <= f.nodes.len());
    lemma_levels_tail(run0, c, k, n, lim);
    lemma_levels_tail(run0, c, k + 1, n, lim);
    lemma_levels_tail(run0, c, 0, k, lim);
    let a = before(sv, skipped, source, c, k);
    let b = before(sv, skipped, source, c, k + 1);
    let stage = stage_at(c, k as int);
    assert(run_levels(run0, c, k + 1) == crate::emission::run_level(a, c, k));
    assert(c.table.has(c.order[k as int]));
    assert(crate::emission::run_level(a, c, k) == run_stage(a, c, k, stage));
    lemma_stage_within(c, k as int, lim);
    lemma_run_stage(a, c, k, stage, lim);
    crate::levels_shape::lemma_levels_sound(run0, c, k, lim);
    assert forall|i: int| 0 <= i < a.calls.len() implies c.callers.contains(
        #[trigger] a.calls[i],
    ) && a.calls[i] < lim by {
        lemma_keep_called(sv, c.callers, c.callers.len(), a.calls[i]);
        assert(a.calls.contains(a.calls[i]));
        assert(c.callers.take(c.callers.len() as int) =~= c.callers);
        let j = choose|j: int| 0 <= j < c.callers.len() && c.callers[j] == a.calls[i];
        assert(c.callers[j] < lim);
    }
    crate::shape::lemma_advances_trans(sv, run0.sys, a.sys, lim, sv.nodes.len(), sv.nodes.len());
    crate::shape::lemma_advances_trans(
        b.sys,
        run.sys,
        f,
        lim,
        b.sys.nodes.len(),
        run.sys.nodes.len(),
    );
    crate::staged::lemma_stage_entry(
        a.sys,
        stage_name(c.name, k as usize),
        a.modules[k - 1],
        stage.ports,
        handed(a.handoff, stage.ports),
        lim,
    );
    assert forall|i: int| 0 <= i < stage.ports.len() implies a.sys.has(
        #[trigger] handed(a.handoff, stage.ports)[i],
    ) by {
        assert(a.handoff.contains_key(stage.ports[i]));
    }
}

/// Port coverage. The module of every stage above level 0 has the name of
/// the source module with the level appended, and exactly one FIFO port
/// for each value that the stage reads at its entry, in order; the port is
/// named `buffered_` with the value's key and typed as the value that the
/// stage before hands over for it.
pub proof fn law_port_coverage(
    sv: SysView,
    skipped: Seq<usize>,
    source: usize,
    c: ContainerView,
    lim: nat,
    run: RunView,
    f: SysView,
    k: nat,
)
    requires
        rewritten(sv, skipped, source, c, lim, run, f),
        1 <= k < c.order.len(),
    ensures
        ({
            let m = run.modules[k as int];
            let ports = stage_at(c, k as int).ports;
            let values = inputs_of(sv, skipped, source, c, k);
            &&& f.is_module(m)
            &&& f.module(m).name == stage_name(c.name, k as usize)
            &&& f.ports(m).len() == ports.len()
            &&& forall|i: int|
                0 <= i < ports.len() ==> {
                    &&& f.is_fifo(#[trigger] f.ports(m)[i])
                    &&& f.fifo(f.ports(m)[i]) == (FifoView {
                        name: buffered_name(ports[i]),
                        dtype: before(sv, skipped, source, c, k).sys.dtype_of(values[i]),
                        module: m,
                    })
                }
        }),
{
    lemma_stage_in_final(sv, skipped, source, c, lim, run, f, k);
    let a = before(sv, skipped, source, c, k);
    let b = before(sv, skipped, source, c, k + 1);
    let stage = stage_at(c, k as int);
    let e = entry_of(a, c, k, stage);
    let m = a.sys.next_key();
    assert(kept(e, b.sys, m, e.nodes.len()));
    assert(kept(b.sys, f, m, b.sys.nodes.len()));
    assert forall|i: int| 0 <= i < stage.ports.len() implies {
        &&& f.is_fifo(#[trigger] f.ports(m)[i])
        &&& f.fifo(f.ports(m)[i]) == (FifoView {
            name: buffered_name(stage.ports[i]),
            dtype: a.sys.dtype_of(inputs_of(sv, skipped, source, c, k)[i]),
            module: m,
        })
    } by {
        let x = (m + 1 + i) as usize;
        assert(f.ports(m)[i] == x);
        assert(e.nodes[m + 1 + i] == NodeView::Fifo(
            FifoView {
                name: buffered_name(stage.ports[i]),
                dtype: a.sys.dtype_of(handed(a.handoff, stage.ports)[i]),
                module: m,
            },
        ));
        assert(kept(e, b.sys, x, e.nodes.len()));
        assert(kept(b.sys, f, x, b.sys.nodes.len()));
    }
}


/// Operand closure. At the end of the rewrite, every expression of a stage
/// module that is an addition, a subtraction, a multiplication, a bit cast
/// or a slice has, in each place where cloning replaces an operand, a value
/// of the same stage: a pop of one of its ports or another such expression
/// of its body. The bounds of a slice are passed through as they were.
pub proof fn law_operand_closure(
    sv: SysView,
    skipped: Seq<usize>,
    source: usize,
    c: ContainerView,
    lim: nat,
    run: RunView,
    f: SysView,
    k: nat,
)
    requires
        rewritten(sv, skipped, source, c, lim, run, f),
        1 <= k < c.order.len(),
    ensures
        forall|x: usize|
            f.is_expr(x) && f.expr(x).parent == run.modules[k as int] && is_cloneable(
                f.opcode(x),
            ) ==> #[trigger] closed_operands(f, run.modules[k as int], x),
{
    lemma_stage_in_final(sv, skipped, source, c, lim, run, f, k);
    let a = before(sv, skipped, source, c, k);
    let b = before(sv, skipped, source, c, k + 1);
    let stage = stage_at(c, k as int);
    let e = entry_of(a, c, k, stage);
    let m = a.sys.next_key();
    let n = stage.ports.len();
    assert forall|x: usize|
        f.is_expr(x) && f.expr(x).parent == m && is_cloneable(
            f.opcode(x),
        ) implies #[trigger] closed_operands(f, m, x) by {
        assert(f.node_ok(x));
        if x < e.nodes.len() {
            assert(kept(e, b.sys, x, e.nodes.len()));
            assert(kept(b.sys, f, x, b.sys.nodes.len()));
            if x < m + n + 1 {
                if x > m {
                    let i = x - m - 1;
                    assert(e.nodes[m + 1 + i] == NodeView::Fifo(
                        FifoView {
                            name: buffered_name(stage.ports[i]),
                            dtype: a.sys.dtype_of(handed(a.handoff, stage.ports)[i]),
                            module: m,
                        },
                    ));
                }
            } else if x < m + 3 * n + 1 {
                assert(fresh(e, x, m, handshake_class()));
            } else if x < m + 4 * n + 3 {
                assert(fresh(e, x, a.modules[k - 1], link_class()));
            } else {
                assert(fresh(e, x, m, pop_class()));
            }
        } else if x < b.sys.nodes.len() {
            assert(closed_operands(b.sys, m, x));
            assert(fresh(b.sys, x, m, work_class()));
            assert(b.sys.node_ok(x));
            assert(kept(b.sys, f, x, b.sys.nodes.len()));
            lemma_closed_kept(b.sys, f, m, x, b.sys.nodes.len());
        } else {
            assert(made(f, x, b.sys.nodes.len()));
        }
    }
}

/// The handshake of a stage module on `n` ports, read off its body: the
/// first `2n` places hold the probes and their conjunctions and, last, the
/// one wait on the conjunction of all probes; the next `n` places hold one
/// pop for each port, in order; and no other place holds a wait or a pop.
pub open spec fn handshake_first(f: SysView, m: usize, n: nat) -> bool {
    let body = f.body(m);
    let fifos = f.ports(m);
    &&& body.len() >= 3 * n
    &&& fifos.len() == n
    &&& n > 0 ==> is_wait_on_all(f, body[2 * n - 1], fifos)
    &&& forall|i: int| 0 <= i < n ==> is_pop_of(f, #[trigger] body[2 * n + i], fifos[i])
    &&& forall|j: int|
        0 <= j < body.len() && f.opcode(#[trigger] body[j]) == wait_opcode() ==> j == 2 * n - 1
    &&& forall|j: int|
        0 <= j < body.len() && f.opcode(#[trigger] body[j]) == Opcode::FIFOPop ==> 2 * n <= j < 3
            * n
}

/// Handshake. At the end of the rewrite, the body of every stage module
/// has exactly one pop for each of its ports, and before all of them
/// exactly one wait, whose condition is the conjunction of the probes of
/// all the ports, folded from the left.
#[verifier::rlimit(80)]
#[verifier::spinoff_prover]
pub proof fn law_handshake(
    sv: SysView,
    skipped: Seq<usize>,
    source: usize,
    c: ContainerView,
    lim: nat,
    run: RunView,
    f: SysView,
    k: nat,
)
    requires
        rewritten(sv, skipped, source, c, lim, run, f),
        1 <= k < c.order.len(),
    ensures
        handshake_first(f, run.modules[k as int], stage_at(c, k as int).ports.len()),
{
    lemma_stage_in_final(sv, skipped, source, c, lim, run, f, k);
    law_port_coverage(sv, skipped, source, c, lim, run, f, k);
    let a = before(sv, skipped, source, c, k);
    let b = before(sv, skipped, source, c, k + 1);
    let stage = stage_at(c, k as int);
    let e = entry_of(a, c, k, stage);
    let m = a.sys.next_key();
    let n = stage.ports.len();
    let fifos = fifos_of(m, n);
    let h = span((m + n + 1) as nat, (m + 3 * n + 1) as nat);
    let p = span((m + 4 * n + 3) as nat, (m + 5 * n + 3) as nat);
    let w = span(e.nodes.len(), b.sys.nodes.len());
    let bb = b.sys.body(m);
    let body = f.body(m);
    assert(kept(e, b.sys, m, e.nodes.len()));
    assert(kept(b.sys, f, m, b.sys.nodes.len()));
    assert(f.ports(m) == fifos);
    assert(bb =~= h + p + w);
    assert(bb.is_prefix_of(body));
    assert(bb =~= body.subrange(0, bb.len() as int));
    assert(f.node_ok(m));
    assert forall|j: int| 0 <= j < body.len() implies (j < 2 * n ==> body[j] == m + n + 1 + j)
        && (2 * n <= j < 3 * n ==> body[j] == m + 4 * n + 3 + (j - 2 * n)) && (3 * n <= j
        < bb.len() ==> body[j] == e.nodes.len() + (j - 3 * n)) && (j >= bb.len() ==> body[j]
        >= b.sys.nodes.len()) by {
        if j < bb.len() {
            assert(body[j] == bb[j]);
            if j < 2 * n {
                assert(bb[j] == h[j]);
            } else if j < 3 * n {
                assert(bb[j] == p[j - 2 * n]);
            } else {
                assert(bb[j] == w[j - 3 * n]);
            }
        } else {
            assert(mixed(b.sys, f, m));
            let y = body[j];
            if bb.contains(y) {
                let i = choose|i: int| 0 <= i < bb.len() && bb[i] == y;
                assert(body[i] == bb[i]);
                assert(body[i] == body[j]);
            }
        }
    }
    if n > 0 {
        let x = (m + 3 * n) as usize;
        assert(body[2 * n - 1] == x);
        assert(kept(e, b.sys, x, e.nodes.len()));
        assert(kept(b.sys, f, x, b.sys.nodes.len()));
        lemma_and_reduction_kept(e, b.sys, e.operands(x)[0], fifos, n, e.nodes.len());
        lemma_and_reduction_kept(b.sys, f, e.operands(x)[0], fifos, n, b.sys.nodes.len());
    }
    assert forall|i: int| 0 <= i < n implies is_pop_of(f, #[trigger] body[2 * n + i], fifos[i]) by {
        let x = p[i];
        assert(body[2 * n + i] == x);
        assert(is_pop_of(e, x, fifos[i]));
        assert(kept(e, b.sys, x, e.nodes.len()));
        assert(kept(b.sys, f, x, b.sys.nodes.len()));
    }
    assert forall|j: int| 0 <= j < body.len() implies (f.opcode(#[trigger] body[j])
        == wait_opcode() ==> j == 2 * n - 1) && (f.opcode(body[j]) == Opcode::FIFOPop ==> 2 * n
        <= j < 3 * n) by {
        let x = body[j];
        if j < bb.len() {
            if j < 3 * n {
                assert(kept(e, b.sys, x, e.nodes.len()));
                assert(kept(b.sys, f, x, b.sys.nodes.len()));
                if j < 2 * n {
                    assert(fresh(e, x, m, handshake_class()));
                    if j < 2 * n - 1 {
                        assert(e.opcode(x) != wait_opcode());
                    }
                } else {
                    assert(fresh(e, x, m, pop_class()));
                }
            } else {
                assert(fresh(b.sys, x, m, work_class()));
                assert(kept(b.sys, f, x, b.sys.nodes.len()));
            }
        } else {
            assert(f.is_expr(x) && f.expr(x).parent == m);
            assert(made(f, x, b.sys.nodes.len()));
        }
    }
}

/// The key of the bind that calls a stage module `m` with `n` ports.
pub open spec fn link_bind(m: usize, n: nat) -> usize {
    (m + 3 * n + 1) as usize
}

/// Chain linkage. At the end of the rewrite, the module of the level
/// before every stage (the source module for the stage at level 1) holds a
/// bind to the stage's module whose arguments are exactly one push for each
/// of the stage's ports, in order, each of the value that the level before
/// hands over for the port; it holds the call that fires the bind; and no
/// other call in the system fires that bind.
#[verifier::rlimit(80)]
#[verifier::spinoff_prover]
pub proof fn law_chain_linkage(
    sv: SysView,
    skipped: Seq<usize>,
    source: usize,
    c: ContainerView,
    lim: nat,
    run: RunView,
    f: SysView,
    k: nat,
)
    requires
        rewritten(sv, skipped, source, c, lim, run, f),
        1 <= k < c.order.len(),
    ensures
        ({
            let m = run.modules[k as int];
            let pred = run.modules[k - 1];
            let n = stage_at(c, k as int).ports.len();
            let bind = link_bind(m, n);
            let call = (bind + 1 + n) as usize;
            &&& f.is_module(pred)
            &&& k == 1 ==> pred == source
            &&& is_link_of(
                f,
                bind,
                m,
                f.ports(m),
                inputs_of(sv, skipped, source, c, k),
            )
            &&& forall|x: usize| bind <= x <= call ==> (#[trigger] f.expr(x)).parent == pred
            &&& forall|y: usize|
                f.is_expr(y) && #[trigger] f.opcode(y) == Opcode::AsyncCall
                    && f.operands(y).len() >= 1 && f.operands(y)[0] == bind ==> y
                    == call
        }),
{
    lemma_stage_in_final(sv, skipped, source, c, lim, run, f, k);
    law_port_coverage(sv, skipped, source, c, lim, run, f, k);
    let run0 = run_start(sv, skipped, source, c);
    lemma_run_start(sv, skipped, source, c, lim);
    lemma_levels_tail(run0, c, 0, k, lim);
    let a = before(sv, skipped, source, c, k);
    let b = before(sv, skipped, source, c, k + 1);
    let stage = stage_at(c, k as int);
    let e = entry_of(a, c, k, stage);
    let m = a.sys.next_key();
    let n = stage.ports.len();
    let fifos = fifos_of(m, n);
    let values = handed(a.handoff, stage.ports);
    let pred = a.modules[k - 1];
    let bind = link_bind(m, n);
    let call = (bind + 1 + n) as usize;
    assert(kept(e, b.sys, m, e.nodes.len()));
    assert(kept(b.sys, f, m, b.sys.nodes.len()));
    assert(f.ports(m) == fifos);
    assert(kept(a.sys, b.sys, pred, a.sys.nodes.len()));
    assert(kept(b.sys, f, pred, b.sys.nodes.len()));
    assert(kept(e, b.sys, bind, e.nodes.len()));
    assert(kept(b.sys, f, bind, b.sys.nodes.len()));
    assert(kept(e, b.sys, call, e.nodes.len()));
    assert(kept(b.sys, f, call, b.sys.nodes.len()));
    assert forall|i: int| 0 <= i < n implies is_push_of(
        f,
        #[trigger] span((bind + 1) as nat, (bind + 1 + n) as nat)[i],
        fifos[i],
        values[i],
    ) by {
        let x = span((bind + 1) as nat, (bind + 1 + n) as nat)[i];
        assert(is_push_of(e, x, fifos[i], values[i]));
        assert(kept(e, b.sys, x, e.nodes.len()));
        assert(kept(b.sys, f, x, b.sys.nodes.len()));
    }
    assert forall|x: usize| bind <= x <= call implies (#[trigger] f.expr(x)).parent == pred by {
        assert(fresh(e, x, pred, link_class()));
        assert(kept(e, b.sys, x, e.nodes.len()));
        assert(kept(b.sys, f, x, b.sys.nodes.len()));
    }
    assert forall|y: usize|
        f.is_expr(y) && #[trigger] f.opcode(y) == Opcode::AsyncCall && f.operands(y).len() >= 1
            && f.operands(y)[0] == bind implies y == call by {
        if y < a.sys.nodes.len() {
            assert(kept(a.sys, b.sys, y, a.sys.nodes.len()));
            assert(kept(b.sys, f, y, b.sys.nodes.len()));
            assert(a.sys.node_ok(y));
            assert(a.sys.operands(y)[0] < y);
        } else if y < e.nodes.len() {
            assert(kept(e, b.sys, y, e.nodes.len()));
            assert(kept(b.sys, f, y, b.sys.nodes.len()));
            if y < m + n + 1 {
                if y > m {
                    let i = y - m - 1;
                    assert(e.nodes[m + 1 + i] == NodeView::Fifo(
                        FifoView {
                            name: buffered_name(stage.ports[i]),
                            dtype: a.sys.dtype_of(values[i]),
                            module: m,
                        },
                    ));
                }
            } else if y < m + 3 * n + 1 {
                assert(fresh(e, y, m, handshake_class()));
            } else if y < m + 4 * n + 3 {
                if y == bind {
                } else if y < call {
                    let i = y - bind - 1;
                    assert(is_push_of(
                        e,
                        span((bind + 1) as nat, (bind + 1 + n) as nat)[i],
                        fifos[i],
                        values[i],
                    ));
                }
            } else {
                assert(fresh(e, y, m, pop_class()));
            }
        } else if y < b.sys.nodes.len() {
            assert(fires_from(b.sys, y, e.nodes.len()));
            assert(kept(b.sys, f, y, b.sys.nodes.len()));
        } else {
            assert(made(f, y, b.sys.nodes.len()));
        }
    }
}


/// The container records every barrier marker of the body of `source`.
pub open spec fn records_barriers(sv: SysView, source: usize, c: ContainerView) -> bool {
    forall|j: int|
        0 <= j < sv.body(source).len() && sv.opcode(#[trigger] sv.body(source)[j])
            == barrier_opcode() ==> c.barrier_exprs.contains(sv.body(source)[j])
}

/// No expression of the body of `m` is a barrier marker.
pub open spec fn barrier_free(f: SysView, m: usize) -> bool {
    forall|j: int| 0 <= j < f.body(m).len() ==> f.opcode(#[trigger] f.body(m)[j]) != barrier_opcode()
}

/// Barrier removal. At the end of the rewrite of a module whose container
/// records its barrier markers, no barrier marker is left in the body of
/// the module, which is its stage at level 0, nor in the body of the
/// module of any other of its stages.
pub proof fn law_barrier_removal(
    sv: SysView,
    skipped: Seq<usize>,
    source: usize,
    c: ContainerView,
    lim: nat,
    run: RunView,
    f: SysView,
    k: nat,
)
    requires
        rewritten(sv, skipped, source, c, lim, run, f),
        records_barriers(sv, source, c),
        k < run.modules.len(),
    ensures
        run.modules[0] == source,
        f.is_module(run.modules[k as int]),
        barrier_free(f, run.modules[k as int]),
{
    let n = c.order.len();
    let base = sv.nodes.len();
    let run0 = run_start(sv, skipped, source, c);
    lemma_run_start(sv, skipped, source, c, lim);
    assert(run.sys.nodes.len() <= f.nodes.len());
    crate::levels_shape::lemma_levels_sound(run0, c, n, lim);
    crate::shape::lemma_advances_trans(run0.sys, run.sys, f, lim, base, run.sys.nodes.len());
    crate::shape::lemma_advances_trans(sv, run0.sys, f, lim, base, base);
    let m = run.modules[k as int];
    assert(kept(run.sys, f, m, run.sys.nodes.len()));
    assert(f.is_module(m));
    assert(f.node_ok(m));
    crate::shape::lemma_erase_each_gone(sv, c.barrier_exprs, c.barrier_exprs.len(), source);
    assert forall|j: int| 0 <= j < f.body(m).len() implies f.opcode(#[trigger] f.body(m)[j])
        != barrier_opcode() by {
        let y = f.body(m)[j];
        assert(f.is_expr(y) && f.expr(y).parent == m);
        assert(f.node_ok(y));
        if sv.has(y) {
            assert(kept(sv, f, y, base));
            assert(sv.node_ok(y));
            // an old expression stays with its module, so `m` is a module of `sv`
            assert(sv.is_module(m));
            assert(kept(sv, run0.sys, m, base));
            assert(run0.sys.is_module(m));
            assert(mixed(run0.sys, f, m));
            assert(run0.sys.body(m).contains(y));
            if m == source {
                let i = choose|i: int| 0 <= i < run0.sys.body(m).len() && run0.sys.body(m)[i] == y;
                assert(sv.body(m).contains(run0.sys.body(m)[i]));
                let i0 = choose|i0: int| 0 <= i0 < sv.body(m).len() && sv.body(m)[i0] == y;
                if sv.opcode(y) == barrier_opcode() {
                    assert(c.barrier_exprs.contains(sv.body(source)[i0]));
                    let q = choose|q: int|
                        0 <= q < c.barrier_exprs.len() && c.barrier_exprs[q] == y;
                    assert(!run0.sys.body(source).contains(c.barrier_exprs[q]));
                }
            } else {
                lemma_modules_of_run(sv, skipped, source, c, lim, run, f, k);
            }
        } else {
            assert(made(f, y, base));
        }
    }
}

/// The module of level 0 is the source module; the module of every other
/// level is new.
pub proof fn lemma_modules_of_run(
    sv: SysView,
    skipped: Seq<usize>,
    source: usize,
    c: ContainerView,
    lim: nat,
    run: RunView,
    f: SysView,
    k: nat,
)
    requires
        rewritten(sv, skipped, source, c, lim, run, f),
        k < run.modules.len(),
    ensures
        run.modules[0] == source,
        k >= 1 ==> run.modules[k as int] >= sv.nodes.len() && k < c.order.len(),
{
    let n = c.order.len();
    let run0 = run_start(sv, skipped, source, c);
    lemma_run_start(sv, skipped, source, c, lim);
    crate::levels_shape::lemma_levels_sound(run0, c, n, lim);
    if k >= 1 {
        lemma_stage_in_final(sv, skipped, source, c, lim, run, f, k);
    }
}


/// One of `callers` below `lim` is a bind that the call index knows: a
/// bind to a module, in the body of its parent.
pub open spec fn calls_out(sv: SysView, callers: Seq<usize>, lim: nat) -> bool {
    exists|c: usize| c < lim && callers.contains(c) && #[trigger] is_indexed(sv, c)
}

/// One of `callers` below `lim` pushes to a FIFO that has the name `name`.
pub open spec fn pushed_to_name(sv: SysView, callers: Seq<usize>, lim: nat, name: Seq<char>) -> bool {
    exists|c: usize|
        c < lim && callers.contains(c) && #[trigger] is_push(sv, c) && sv.operands(c).len() == 2
            && sv.is_fifo(sv.operands(c)[0]) && sv.fifo(sv.operands(c)[0]).name == name
}

/// `p` is a push of the stage module `m` that carries a value of the stage
/// to a port of `callee` whose name is that of a FIFO that the source
/// module pushed to.
pub open spec fn passed_push(
    sv: SysView,
    f: SysView,
    m: usize,
    callers: Seq<usize>,
    lim: nat,
    callee: usize,
    p: usize,
) -> bool {
    &&& f.is_expr(p)
    &&& f.opcode(p) == Opcode::FIFOPush
    &&& f.operands(p).len() == 2
    &&& f.expr(p).parent == m
    &&& f.is_fifo(f.operands(p)[0])
    &&& f.fifo(f.operands(p)[0]).module == callee
    &&& pushed_to_name(sv, callers, lim, f.fifo(f.operands(p)[0]).name)
    &&& stage_value(f, m, f.operands(p)[1])
}

/// The call `y` of the stage module `m` passes on a call of the source
/// module: it fires a bind of `m` to a module that the source module
/// bound, and every argument of the bind is a push as `passed_push` says.
pub open spec fn passes_on(
    sv: SysView,
    f: SysView,
    m: usize,
    callers: Seq<usize>,
    lim: nat,
    y: usize,
) -> bool {
    let b = f.operands(y)[0];
    let callee = f.operands(b)[0];
    &&& f.operands(y).len() == 1
    &&& f.is_bind(b)
    &&& f.expr(b).parent == m
    &&& f.operands(b).len() >= 1
    &&& bound_below(sv, callers, lim, callee)
    &&& forall|i: int|
        1 <= i < f.operands(b).len() ==> passed_push(
            sv,
            f,
            m,
            callers,
            lim,
            callee,
            #[trigger] f.operands(b)[i],
        )
}

/// Caller removal. At the end of the rewrite of a module with more than
/// one stage, none of the recorded caller expressions, the binds, pushes
/// and calls of the source module, is left in the body of the source
/// module or of any other module that the system had before.
pub proof fn law_callers_erased(
    sv: SysView,
    skipped: Seq<usize>,
    source: usize,
    c: ContainerView,
    lim: nat,
    run: RunView,
    f: SysView,
    p: usize,
    x: usize,
)
    requires
        rewritten(sv, skipped, source, c, lim, run, f),
        c.order.len() >= 2,
        c.callers.contains(x),
        sv.is_module(p),
    ensures
        f.is_module(p),
        !f.body(p).contains(x),
{
    let k = (c.order.len() - 1) as nat;
    lemma_stage_in_final(sv, skipped, source, c, lim, run, f, k);
    let a = before(sv, skipped, source, c, k);
    let stage = stage_at(c, k as int);
    let i = choose|i: int| 0 <= i < c.callers.len() && c.callers[i] == x;
    assert(c.callers[i] < lim);
    crate::shape::lemma_advances_trans(sv, a.sys, run.sys, lim, sv.nodes.len(), a.sys.nodes.len());
    crate::shape::lemma_advances_trans(sv, run.sys, f, lim, sv.nodes.len(), run.sys.nodes.len());
    assert(kept(sv, f, p, sv.nodes.len()));
    assert(kept(sv, a.sys, p, sv.nodes.len()));
    assert(kept(sv, run.sys, p, sv.nodes.len()));
    if f.body(p).contains(x) {
        let j = choose|j: int| 0 <= j < f.body(p).len() && f.body(p)[j] == x;
        // an old expression in a body was in that body before
        assert(mixed(sv, f, p));
        assert(sv.body(p).contains(f.body(p)[j]));
        let j0 = choose|j0: int| 0 <= j0 < sv.body(p).len() && sv.body(p)[j0] == x;
        assert(sv.node_ok(p));
        assert(sv.is_expr(sv.body(p)[j0]) && sv.expr(sv.body(p)[j0]).parent == p);
        assert(sv.node_ok(x));
        assert(p < lim);
        let run0 = run_start(sv, skipped, source, c);
        assert(c.table.has(c.order[k as int]) && run_stage(a, c, k, stage) == Ok::<
            RunView,
            Failure,
        >(run)) by {
            assert(run_levels(run0, c, c.order.len()) == Ok::<RunView, Failure>(run));
            assert(run_levels(run0, c, k).is_ok());
            assert(crate::emission::run_level(a, c, k) == Ok::<RunView, Failure>(run));
        }
        lemma_stage_within(c, k as int, lim);
        lemma_run_stage_gone(a, c, k, stage, lim, p, x);
        assert(mixed(run.sys, f, p));
        assert(run.sys.body(p).contains(f.body(p)[j]));
    }
}

/// Caller preservation. At the end of the rewrite of a module with more
/// than one stage, every call that the rewrite left in the module of the
/// last stage passes on a call of the source module: it goes to a module
/// that the source module bound, and each of its arguments goes to a port
/// with the name of a FIFO that the source module pushed to, and carries a
/// value of the last stage. If the source module bound a module at all,
/// the last node that the rewrite made is such a call.
#[verifier::rlimit(100)]
#[verifier::spinoff_prover]
pub proof fn law_caller_preservation(
    sv: SysView,
    skipped: Seq<usize>,
    source: usize,
    c: ContainerView,
    lim: nat,
    run: RunView,
    f: SysView,
)
    requires
        rewritten(sv, skipped, source, c, lim, run, f),
        c.order.len() >= 2,
    ensures
        ({
            let m = run.modules[c.order.len() - 1];
            let last = (run.sys.nodes.len() - 1) as usize;
            &&& forall|y: usize|
                y < run.sys.nodes.len() && f.is_expr(y) && f.expr(y).parent == m
                    && #[trigger] f.opcode(y) == Opcode::AsyncCall ==> passes_on(
                    sv,
                    f,
                    m,
                    c.callers,
                    lim,
                    y,
                )
            &&& calls_out(sv, c.callers, lim) ==> f.is_expr(last) && f.expr(last).parent == m
                && f.opcode(last) == Opcode::AsyncCall
        }),
{
    let k = (c.order.len() - 1) as nat;
    lemma_stage_in_final(sv, skipped, source, c, lim, run, f, k);
    let a = before(sv, skipped, source, c, k);
    let stage = stage_at(c, k as int);
    let e = entry_of(a, c, k, stage);
    let m = a.sys.next_key();
    let n = stage.ports.len();
    let r = run.sys;
    let bound = a.sys.nodes.len();
    let calls = a.calls;
    let scan = stage_scan(e, calls, bound, true);
    let remap = clones_of(a, c, k, stage).remap;
    let pred = a.modules[k - 1];
    let last = (r.nodes.len() - 1) as usize;
    let nv = scan.values.len();
    assert(took_over(e, r, m, calls, bound, scan, remap));
    // a caller expression is below `lim`, and is in `e` what it is in `sv`
    assert forall|cc: usize| cc < bound && calls.contains(cc) implies cc < lim && sv.has(cc)
        && c.callers.contains(cc) && kept(sv, a.sys, cc, sv.nodes.len()) && kept(
        a.sys,
        e,
        cc,
        bound,
    ) by {
        let i = choose|i: int| 0 <= i < calls.len() && calls[i] == cc;
        assert(c.callers.contains(calls[i]));
        assert(calls[i] < lim);
    }
    if calls_out(sv, c.callers, lim) {
        let cc = choose|cc: usize|
            cc < lim && c.callers.contains(cc) && #[trigger] is_indexed(sv, cc);
        lemma_keep_called(sv, c.callers, c.callers.len(), cc);
        assert(c.callers.take(c.callers.len() as int) =~= c.callers);
        assert(calls.contains(cc));
        assert(kept(sv, a.sys, cc, sv.nodes.len()) && kept(a.sys, e, cc, bound));
        assert(e.is_bind(cc));
        assert(scan.bind.is_some());
        let b = scan.bind->Some_0;
        assert(is_call_of(r, last, b));
        assert(fresh(r, last, m, work_class()));
        assert(kept(r, f, last, r.nodes.len()));
    }
    assert forall|y: usize|
        y < r.nodes.len() && f.is_expr(y) && f.expr(y).parent == m && #[trigger] f.opcode(y)
            == Opcode::AsyncCall implies passes_on(sv, f, m, c.callers, lim, y) by {
        assert(kept(r, f, y, r.nodes.len()));
        assert(f.node_ok(y));
        if y < e.nodes.len() {
            assert(kept(e, r, y, e.nodes.len()));
            if y < m + n + 1 {
                if y > m {
                    let i = y - m - 1;
                    assert(e.nodes[m + 1 + i] == NodeView::Fifo(
                        FifoView {
                            name: buffered_name(stage.ports[i]),
                            dtype: a.sys.dtype_of(handed(a.handoff, stage.ports)[i]),
                            module: m,
                        },
                    ));
                }
            } else if y < m + 3 * n + 1 {
                assert(fresh(e, y, m, handshake_class()));
            } else if y < m + 4 * n + 3 {
                assert(fresh(e, y, pred, link_class()));
            } else {
                assert(fresh(e, y, m, pop_class()));
            }
        } else {
            assert(r.opcode(y) == Opcode::AsyncCall);
            assert(scan.bind.is_some() && y == r.nodes.len() - 1);
            let b = scan.bind->Some_0;
            let callee = r.operands(b)[0];
            let first = (r.nodes.len() - 1 - nv) as nat;
            assert(is_call_of(r, y, b));
            assert(fresh(r, b, m, crate::shape::bind_class()));
            assert(kept(r, f, b, r.nodes.len()));
            assert(f.operands(y)[0] == b);
            assert(f.operands(b) == r.operands(b));
            // the callee
            assert(bound_below(e, calls, bound, callee));
            let cb = choose|cb: usize|
                cb < bound && calls.contains(cb) && #[trigger] e.is_bind(cb) && e.operands(
                    cb,
                )[0] == callee;
            assert(kept(sv, a.sys, cb, sv.nodes.len()) && kept(a.sys, e, cb, bound));
            assert(sv.node_ok(cb));
            assert(sv.is_bind(cb));
            assert(bound_below(sv, c.callers, lim, callee));
            // the arguments
            assert forall|i: int| 1 <= i < f.operands(b).len() implies passed_push(
                sv,
                f,
                m,
                c.callers,
                lim,
                callee,
                #[trigger] f.operands(b)[i],
            ) by {
                let p = f.operands(b)[i];
                let q = i - 1;
                assert(p == span(first, first + nv)[q]);
                let fifo = scan.fifos[q];
                let value = scan.values[q];
                assert(is_repush(r, span(first, first + nv)[q], callee, e.fifo(fifo).name, remap[value]));
                assert(pushed_below(e, calls, bound, fifo, value) && e.is_fifo(fifo)
                    && remap.contains_key(value) && stage_value(r, m, remap[value]));
                assert(fresh(r, p, m, work_class()));
                assert(kept(r, f, p, r.nodes.len()));
                assert(r.node_ok(p));
                let port = r.operands(p)[0];
                assert(r.has(port));
                assert(kept(r, f, port, r.nodes.len()));
                assert(kept(r, f, remap[value], r.nodes.len()));
                let cp = choose|cp: usize|
                    cp < bound && calls.contains(cp) && #[trigger] is_push_of(
                        e,
                        cp,
                        fifo,
                        value,
                    );
                assert(kept(sv, a.sys, cp, sv.nodes.len()) && kept(a.sys, e, cp, bound));
                assert(sv.node_ok(cp));
                assert(is_push(sv, cp));
                assert(sv.operands(cp) == seq![fifo, value]);
                assert(sv.has(sv.operands(cp)[0]));
                assert(kept(sv, a.sys, fifo, sv.nodes.len()) && kept(a.sys, e, fifo, bound));
                assert(sv.is_fifo(fifo) && sv.fifo(fifo).name == e.fifo(fifo).name);
                assert(pushed_to_name(sv, c.callers, lim, f.fifo(f.operands(p)[0]).name));
            }
        }
    }
}


/// What stands for each value in the last stage of the rewrite: the pop of
/// the port that carries it, or the clone that the stage made of it.
pub open spec fn last_remap(
    sv: SysView,
    skipped: Seq<usize>,
    source: usize,
    c: ContainerView,
) -> Map<usize, usize> {
    let k = (c.order.len() - 1) as nat;
    clones_of(before(sv, skipped, source, c, k), c, k, stage_at(c, k as int)).remap
}

/// Caller preservation, argument by argument. Where the source module
/// bound a module that the call index knows, the call that the last stage
/// makes has exactly one argument for each push of the source module, in
/// the order of the pushes: it goes to a port of the callee that has the
/// name of the FIFO that the push went to, and carries what stands in the
/// last stage for the value that was pushed, a pop or a clone of that
/// stage. So the last stage pushes to the same names, each as often, as
/// the source module did.
#[verifier::rlimit(100)]
#[verifier::spinoff_prover]
pub proof fn law_caller_arguments(
    sv: SysView,
    skipped: Seq<usize>,
    source: usize,
    c: ContainerView,
    lim: nat,
    run: RunView,
    f: SysView,
)
    requires
        rewritten(sv, skipped, source, c, lim, run, f),
        c.order.len() >= 2,
        calls_out(sv, c.callers, lim),
    ensures
        ({
            let m = run.modules[c.order.len() - 1];
            let call = (run.sys.nodes.len() - 1) as usize;
            let b = f.operands(call)[0];
            let callee = f.operands(b)[0];
            let p = pushes_below(sv, c.callers, lim);
            let remap = last_remap(sv, skipped, source, c);
            &&& f.is_expr(call) && f.opcode(call) == Opcode::AsyncCall && f.expr(call).parent == m
            &&& f.operands(b).len() == 1 + p.len()
            &&& forall|i: int|
                0 <= i < p.len() ==> remap.contains_key(sv.operands(#[trigger] p[i])[1])
                    && is_repush(
                    f,
                    f.operands(b)[1 + i],
                    callee,
                    sv.fifo(sv.operands(p[i])[0]).name,
                    remap[sv.operands(p[i])[1]],
                ) && stage_value(f, m, remap[sv.operands(p[i])[1]])
        }),
{
    let k = (c.order.len() - 1) as nat;
    lemma_stage_in_final(sv, skipped, source, c, lim, run, f, k);
    law_caller_preservation(sv, skipped, source, c, lim, run, f);
    let a = before(sv, skipped, source, c, k);
    let stage = stage_at(c, k as int);
    let e = entry_of(a, c, k, stage);
    let m = a.sys.next_key();
    let r = run.sys;
    let bound = a.sys.nodes.len();
    let calls = a.calls;
    let scan = stage_scan(e, calls, bound, true);
    let remap = clones_of(a, c, k, stage).remap;
    let call = (r.nodes.len() - 1) as usize;
    let nv = scan.values.len();
    let p = pushes_below(sv, c.callers, lim);
    // the scan of the entry records the pushes of the source module
    crate::shape::lemma_advances_trans(sv, a.sys, e, lim, sv.nodes.len(), bound);
    lemma_pushes_called(sv, c.callers, lim);
    lemma_pushes_same(sv, e, calls, lim, sv.nodes.len());
    lemma_pushes_beyond(e, calls, lim, bound);
    crate::shape::lemma_scan_len(crate::shape::scan_start(e), calls, bound);
    lemma_scan_in_stage(sv, skipped, source, c, lim, run, f);
    assert(pushes_below(e, calls, bound) == p);
    lemma_scan_exact(e, calls, bound, e.nodes.len());
    assert(scan.values == pushed_values(sv, p));
    assert(scan.fifos == pushed_fifos(sv, p));
    assert(nv == p.len());
    // the bind of the last stage
    let cc = choose|cc: usize| cc < lim && c.callers.contains(cc) && #[trigger] is_indexed(sv, cc);
    lemma_keep_called(sv, c.callers, c.callers.len(), cc);
    assert(c.callers.take(c.callers.len() as int) =~= c.callers);
    assert(calls.contains(cc));
    assert(kept(sv, e, cc, sv.nodes.len()));
    assert(e.is_bind(cc));
    assert(scan.bind.is_some());
    let b = scan.bind->Some_0;
    let callee = r.operands(b)[0];
    let first = (r.nodes.len() - 1 - nv) as nat;
    assert(is_call_of(r, call, b));
    assert(kept(r, f, call, r.nodes.len()));
    assert(fresh(r, b, m, crate::shape::bind_class()));
    assert(kept(r, f, b, r.nodes.len()));
    assert(f.operands(call)[0] == b);
    assert(f.operands(b) == r.operands(b));
    crate::shape::lemma_pushes_below(sv, c.callers, lim);
    assert forall|i: int| 0 <= i < p.len() implies remap.contains_key(
        sv.operands(#[trigger] p[i])[1],
    ) && is_repush(
        f,
        f.operands(b)[1 + i],
        callee,
        sv.fifo(sv.operands(p[i])[0]).name,
        remap[sv.operands(p[i])[1]],
    ) && stage_value(f, m, remap[sv.operands(p[i])[1]]) by {
        let arg = f.operands(b)[1 + i];
        assert(arg == span(first, first + nv)[i]);
        let fifo = scan.fifos[i];
        let value = scan.values[i];
        assert(fifo == sv.operands(p[i])[0]);
        assert(value == sv.operands(p[i])[1]);
        assert(is_repush(r, span(first, first + nv)[i], callee, e.fifo(fifo).name, remap[value]));
        assert(pushed_below(e, calls, bound, fifo, value) && e.is_fifo(fifo)
            && remap.contains_key(value) && stage_value(r, m, remap[value]));
        assert(fresh(r, arg, m, work_class()));
        assert(kept(r, f, arg, r.nodes.len()));
        assert(r.node_ok(arg));
        assert(r.has(r.operands(arg)[0]));
        assert(kept(r, f, r.operands(arg)[0], r.nodes.len()));
        assert(kept(r, f, remap[value], r.nodes.len()));
        assert(sv.node_ok(p[i]));
        assert(is_push(sv, p[i]));
        assert(sv.has(sv.operands(p[i])[0]));
        assert(kept(sv, e, fifo, sv.nodes.len()));
    }
}

/// The pushes among the callers are the pushes among those of them that
/// the last stage scans: the call index sorts out binds only.
proof fn lemma_pushes_called(sv: SysView, callers: Seq<usize>, n: nat)
    requires
        n <= usize::MAX + 1,
    ensures
        pushes_below(sv, keep_called(sv, callers, callers.len()), n) == pushes_below(
            sv,
            callers,
            n,
        ),
    decreases n,
{
    if n > 0 {
        let k = (n - 1) as usize;
        lemma_pushes_called(sv, callers, (n - 1) as nat);
        lemma_keep_called(sv, callers, callers.len(), k);
        assert(callers.take(callers.len() as int) =~= callers);
    }
}

/// The scan of the last stage stays within what the machine can hold.
proof fn lemma_scan_in_stage(
    sv: SysView,
    skipped: Seq<usize>,
    source: usize,
    c: ContainerView,
    lim: nat,
    run: RunView,
    f: SysView,
)
    requires
        rewritten(sv, skipped, source, c, lim, run, f),
        c.order.len() >= 2,
    ensures
        ({
            let k = (c.order.len() - 1) as nat;
            let a = before(sv, skipped, source, c, k);
            let e = entry_of(a, c, k, stage_at(c, k as int));
            stage_scan(e, a.calls, a.sys.nodes.len(), true).sys.nodes.len() <= usize::MAX
        }),
{
    let k = (c.order.len() - 1) as nat;
    lemma_stage_in_final(sv, skipped, source, c, lim, run, f, k);
    let a = before(sv, skipped, source, c, k);
    let stage = stage_at(c, k as int);
    let e = entry_of(a, c, k, stage);
    let bound = a.sys.nodes.len();
    let scan = stage_scan(e, a.calls, bound, true);
    let remap = crate::emission::stage_remap(
        a.sys,
        stage_name(c.name, k as usize),
        a.modules[k - 1],
        stage.ports,
        handed(a.handoff, stage.ports),
    );
    crate::shape::lemma_clone_len(
        crate::staged::clone_start(scan, remap, a.skipped),
        stage.body,
        bound,
    );
    assert(run_levels(run_start(sv, skipped, source, c), c, k + 1) == crate::emission::run_level(
        a,
        c,
        k,
    ));
    let cl = clones_of(a, c, k, stage);
    assert(scan.sys.nodes.len() <= cl.sys.nodes.len());
    crate::staged::lemma_stage_work_len(
        e,
        remap,
        c.callers,
        a.calls,
        stage.body,
        bound,
        true,
        a.skipped,
    );
    lemma_finish_len(cl, c.callers, scan, bound);
}

/// The hand-over of the last stage takes no node away.
proof fn lemma_finish_len(
    cl: crate::emission::CloneView,
    callers: Seq<usize>,
    scan: crate::emission::ScanView,
    bound: nat,
)
    ensures
        match crate::emission::finish(cl.sys, callers, cl.cloned, scan, cl.remap, bound) {
            Ok(r) => cl.sys.nodes.len() <= r.nodes.len(),
            Err(_) => true,
        },
{
    crate::shape::lemma_erase_lens(cl.sys, callers, bound, bound);
    let e1 = crate::emission::erase_down(cl.sys, callers, bound, bound);
    crate::shape::lemma_erase_lens(e1, cl.cloned, bound, cl.cloned.len());
    match scan.bind {
        Some(b) => {
            crate::shape::lemma_rebind_len(
                crate::emission::erase_back(e1, cl.cloned, cl.cloned.len()),
                b,
                scan.values,
                scan.fifos,
                cl.remap,
                scan.values.len(),
            );
        },
        None => {},
    }
}

/// Stage count. The rewrite of a module makes one module for each of its
/// stages above level 0, in the order of the levels: each is a new module
/// of the system, made after those of the levels before it.
pub proof fn law_stage_count(
    sv: SysView,
    skipped: Seq<usize>,
    source: usize,
    c: ContainerView,
    lim: nat,
    run: RunView,
    f: SysView,
    j: nat,
    k: nat,
)
    requires
        rewritten(sv, skipped, source, c, lim, run, f),
        1 <= j < k < c.order.len(),
    ensures
        run.modules.len() == c.order.len(),
        run.modules[0] == source,
        f.is_module(run.modules[k as int]),
        sv.nodes.len() <= run.modules[j as int] < run.modules[k as int],
{
    lemma_stage_key(sv, skipped, source, c, lim, run, f, k);
    lemma_stage_key(sv, skipped, source, c, lim, run, f, j);
    let run0 = run_start(sv, skipped, source, c);
    crate::levels_shape::lemma_run_levels_len(run0, c, k, c.order.len());
    crate::levels_shape::lemma_run_levels_len(run0, c, j + 1, k);
}

/// The module of the stage at level `k` has the key that was next when the
/// stage began, and the stage adds nodes.
proof fn lemma_stage_key(
    sv: SysView,
    skipped: Seq<usize>,
    source: usize,
    c: ContainerView,
    lim: nat,
    run: RunView,
    f: SysView,
    k: nat,
)
    requires
        rewritten(sv, skipped, source, c, lim, run, f),
        1 <= k < c.order.len(),
    ensures
        run.modules.len() == c.order.len(),
        run.modules[0] == source,
        f.is_module(run.modules[k as int]),
        run.modules[k as int] == before(sv, skipped, source, c, k).sys.nodes.len(),
        sv.nodes.len() <= before(sv, skipped, source, c, k).sys.nodes.len(),
        before(sv, skipped, source, c, k).sys.nodes.len() < before(
            sv,
            skipped,
            source,
            c,
            k + 1,
        ).sys.nodes.len(),
        run_levels(run_start(sv, skipped, source, c), c, c.order.len()).is_ok(),
{
    lemma_stage_in_final(sv, skipped, source, c, lim, run, f, k);
    law_port_coverage(sv, skipped, source, c, lim, run, f, k);
    lemma_modules_of_run(sv, skipped, source, c, lim, run, f, k);
    let a = before(sv, skipped, source, c, k);
    let stage = stage_at(c, k as int);
    crate::staged::lemma_stage_entry_len(
        a.sys,
        stage_name(c.name, k as usize),
        a.modules[k - 1],
        stage.ports,
        handed(a.handoff, stage.ports),
    );
}

/// Every container of `map` speaks of nodes below `lim` only.
pub open spec fn all_within(map: Map<usize, ContainerView>, lim: nat) -> bool {
    forall|k: usize| #[trigger] map.contains_key(k) ==> container_within(map[k], lim)
}

/// The whole rewrite before it has looked at any module.
pub open spec fn cut_start(sv: SysView) -> OutcomeView {
    OutcomeView { sys: sv, created: Seq::empty(), skipped: Seq::empty() }
}

/// The whole rewrite when it comes to the module with key `key`.
pub open spec fn cut_before(sv: SysView, map: Map<usize, ContainerView>, key: nat) -> OutcomeView {
    cut_upto(cut_start(sv), map, key)->Ok_0
}

/// Where the rewrite goes well for the modules below `n`, it does for those
/// below `j`, and takes no node away after them.
pub proof fn lemma_cut_len(st: OutcomeView, map: Map<usize, ContainerView>, j: nat, n: nat)
    requires
        j <= n,
        cut_upto(st, map, n).is_ok(),
    ensures
        cut_upto(st, map, j).is_ok(),
        cut_upto(st, map, j)->Ok_0.sys.nodes.len() <= cut_upto(st, map, n)->Ok_0.sys.nodes.len(),
    decreases n - j,
{
    if j < n {
        let prev = cut_upto(st, map, (n - 1) as nat)->Ok_0;
        let key = (n - 1) as usize;
        if map.contains_key(key) {
            crate::levels_shape::lemma_rewrite_module_len(prev.sys, prev.skipped, key, map[key]);
        }
        lemma_cut_len(st, map, j, (n - 1) as nat);
    }
}

/// From the rewrite's state at the module `j` to its state at the module
/// `n`: both systems are well formed, and the first advances to the second.
pub proof fn lemma_cut_tail(
    st: OutcomeView,
    map: Map<usize, ContainerView>,
    j: nat,
    n: nat,
    lim: nat,
)
    requires
        st.sys.wf(),
        lim <= st.sys.nodes.len(),
        all_within(map, lim),
        j <= n,
        match cut_upto(st, map, n) {
            Ok(out) => out.sys.nodes.len() <= usize::MAX,
            Err(_) => false,
        },
    ensures
        cut_upto(st, map, j).is_ok(),
        cut_upto(st, map, j)->Ok_0.sys.wf(),
        cut_upto(st, map, n)->Ok_0.sys.wf(),
        lim <= cut_upto(st, map, j)->Ok_0.sys.nodes.len(),
        advances(
            cut_upto(st, map, j)->Ok_0.sys,
            cut_upto(st, map, n)->Ok_0.sys,
            lim,
            cut_upto(st, map, j)->Ok_0.sys.nodes.len(),
        ),
    decreases n,
{
    lemma_cut_len(st, map, j, n);
    lemma_cut_len(st, map, 0, j);
    let mid = cut_upto(st, map, j)->Ok_0;
    let out = cut_upto(st, map, n)->Ok_0;
    if n == 0 {
        crate::shape::lemma_advances_refl(st.sys, lim, st.sys.nodes.len());
    } else {
        let prev = cut_upto(st, map, (n - 1) as nat)->Ok_0;
        let key = (n - 1) as usize;
        lemma_cut_len(st, map, (n - 1) as nat, n);
        if j == n {
            lemma_cut_tail(st, map, (n - 1) as nat, (n - 1) as nat, lim);
        } else {
            lemma_cut_tail(st, map, j, (n - 1) as nat, lim);
        }
        if map.contains_key(key) {
            crate::levels_shape::lemma_rewrite_module(prev.sys, prev.skipped, key, map[key], lim);
        } else {
            crate::shape::lemma_advances_refl(prev.sys, lim, prev.sys.nodes.len());
        }
        if j == n {
            crate::shape::lemma_advances_refl(out.sys, lim, out.sys.nodes.len());
        } else {
            crate::shape::lemma_advances_trans(
                mid.sys,
                prev.sys,
                out.sys,
                lim,
                mid.sys.nodes.len(),
                prev.sys.nodes.len(),
            );
        }
    }
}

/// Every module that a whole run of the rewrite has split was rewritten as
/// the laws above suppose, with the system at the end of the run as the
/// later system: what the laws say of a split module holds at the end of
/// the run, whatever was split after it.
pub proof fn law_every_module(sv: SysView, map: Map<usize, ContainerView>, out: OutcomeView, key: usize)
    requires
        sv.wf(),
        all_within(map, sv.nodes.len()),
        cut(sv, map) == Ok::<OutcomeView, Failure>(out),
        out.sys.nodes.len() <= usize::MAX,
        sv.has(key),
        map.contains_key(key),
    ensures
        ({
            let prev = cut_before(sv, map, key as nat);
            &&& rewrite_module(prev.sys, prev.skipped, key, map[key]).is_ok()
            &&& rewritten(
                prev.sys,
                prev.skipped,
                key,
                map[key],
                sv.nodes.len(),
                rewrite_module(prev.sys, prev.skipped, key, map[key])->Ok_0,
                out.sys,
            )
            &&& sv.is_module(key) && records_barriers(sv, key, map[key]) ==> records_barriers(
                prev.sys,
                key,
                map[key],
            )
        }),
{
    let lim = sv.nodes.len();
    let st = cut_start(sv);
    let n = sv.nodes.len();
    lemma_cut_tail(st, map, key as nat, n, lim);
    lemma_cut_tail(st, map, (key + 1) as nat, n, lim);
    let prev = cut_before(sv, map, key as nat);
    let next = cut_upto(st, map, (key + 1) as nat)->Ok_0;
    assert(cut_upto(st, map, (key + 1) as nat).is_ok());
    let run = rewrite_module(prev.sys, prev.skipped, key, map[key])->Ok_0;
    assert(next.sys == run.sys);
    if sv.is_module(key) && records_barriers(sv, key, map[key]) {
        lemma_cut_tail(st, map, 0, key as nat, lim);
        lemma_records_later(sv, prev.sys, key, map[key], lim, lim);
    }
}


/// A container that records the barrier markers of a module's body still
/// does so after the system has advanced: the rewrite adds no barrier marker.
pub proof fn lemma_records_later(
    sv: SysView,
    t: SysView,
    source: usize,
    c: ContainerView,
    lim: nat,
    base: nat,
)
    requires
        sv.wf(),
        t.wf(),
        sv.is_module(source),
        advances(sv, t, lim, base),
        records_barriers(sv, source, c),
    ensures
        records_barriers(t, source, c),
{
    assert(kept(sv, t, source, base));
    assert(mixed(sv, t, source));
    assert(t.node_ok(source));
    assert forall|j: int|
        0 <= j < t.body(source).len() && t.opcode(#[trigger] t.body(source)[j])
            == barrier_opcode() implies c.barrier_exprs.contains(t.body(source)[j]) by {
        let y = t.body(source)[j];
        assert(t.is_expr(y));
        if sv.body(source).contains(y) {
            let i = choose|i: int| 0 <= i < sv.body(source).len() && sv.body(source)[i] == y;
            assert(sv.node_ok(source));
            assert(sv.is_expr(sv.body(source)[i]));
            assert(kept(sv, t, y, base));
        } else {
            assert(made(t, y, base));
        }
    }
}

} // verus!
