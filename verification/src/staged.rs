//! The shape of a stage module: what the rewrite of one stage leaves in the
//! system, and what the rewrite of later stages keeps of it.

use crate::emission::{
    Failure,
    rebind, clone_body, fifos_of, finish, hand_on, handed, hands_all, handshake, pop_each, pop_remap,
    run_stage, scan_callers, stage_entry, stage_ports, stage_remap, stitch, CloneView, RunView,
    ScanView,
};
use crate::ir::{kept, FifoView, NodeView, Opcode, SysView};
use crate::shape::{
    lemma_scan_complete, scan_complete, build_class, call_class, lemma_advances_lower, advances,
    all_below, bind_class, clone_class, closed_operands, emits, fresh, handshake_class, is_call_of,
    is_link_of, is_pop_of, is_push_of, is_repush, is_wait_on_all, lemma_add_module_advances,
    lemma_advances_trans, lemma_and_reduction_kept, lemma_bind_each_len, lemma_clone_body,
    lemma_clone_len, lemma_emits_advances, lemma_emits_trans, lemma_emits_widen, lemma_erase_back,
    lemma_erase_down, lemma_erase_lens, lemma_erases_advances, lemma_erases_trans, lemma_handshake,
    lemma_handshake_len, lemma_pop_each, lemma_pop_each_len, lemma_rebind, lemma_rebind_len,
    lemma_scan_callers, lemma_scan_len, lemma_step_emit, lemma_stitch, link_class, made, mixed,
    pop_class, push_class, scan_start, scanned_from, span, stage_value, stage_values, work_class,
};
use crate::stage::{ContainerView, StageView};
use crate::text::{buffered_name, stage_name};
use vstd::prelude::*;

verus! {

/// Every key from `a` up to `b` is an expression of `t` in the module `m`
/// with an opcode in `cls`.
pub open spec fn all_fresh(
    t: SysView,
    a: nat,
    b: nat,
    m: usize,
    cls: spec_fn(Opcode) -> bool,
) -> bool {
    forall|x: usize| a <= x < b ==> #[trigger] fresh(t, x, m, cls)
}

/// The system `e` holds the entry of a stage that was built on `sv`: the
/// stage module `m` with one FIFO for each of `ports`, the handshake and
/// the pops in its body, and the call of it at the end of the body of `pred`.
pub open spec fn entered(
    sv: SysView,
    e: SysView,
    name: Seq<char>,
    pred: usize,
    ports: Seq<usize>,
    values: Seq<usize>,
) -> bool {
    let m = sv.next_key();
    let n = ports.len();
    let fifos = fifos_of(m, n);
    &&& e.nodes.len() == m + 5 * n + 3
    &&& e.current == m
    &&& e.is_module(m)
    &&& e.module(m).name == name
    &&& e.ports(m) == fifos
    &&& forall|i: int|
        0 <= i < n ==> e.nodes[m + 1 + i] == NodeView::Fifo(
            FifoView {
                name: buffered_name(#[trigger] ports[i]),
                dtype: sv.dtype_of(values[i]),
                module: m,
            },
        )
    &&& e.body(m) == span((m + n + 1) as nat, (m + 3 * n + 1) as nat) + span(
        (m + 4 * n + 3) as nat,
        (m + 5 * n + 3) as nat,
    )
    &&& e.body(pred) == sv.body(pred) + span((m + 3 * n + 1) as nat, (m + 4 * n + 3) as nat)
    &&& all_fresh(e, (m + n + 1) as nat, (m + 3 * n + 1) as nat, m, handshake_class())
    &&& all_fresh(e, (m + 3 * n + 1) as nat, (m + 4 * n + 3) as nat, pred, link_class())
    &&& all_fresh(e, (m + 4 * n + 3) as nat, (m + 5 * n + 3) as nat, m, pop_class())
    &&& n > 0 ==> is_wait_on_all(e, (m + 3 * n) as usize, fifos)
    &&& forall|x: usize|
        m + n + 1 <= x < m + 3 * n && e.has(x) ==> #[trigger] e.opcode(x) != crate::ir::wait_opcode()
    &&& is_link_of(e, (m + 3 * n + 1) as usize, m, fifos, values)
    &&& forall|i: int|
        0 <= i < n ==> is_pop_of(
            e,
            #[trigger] span((m + 4 * n + 3) as nat, (m + 5 * n + 3) as nat)[i],
            fifos[i],
        )
}

/// The entry of a stage: the system stays well formed, advances, and holds
/// the entry as `entered` says; what stands for the ports are values of
/// the stage.
#[verifier::rlimit(80)]
#[verifier::spinoff_prover]
pub proof fn lemma_stage_entry(
    sv: SysView,
    name: Seq<char>,
    pred: usize,
    ports: Seq<usize>,
    values: Seq<usize>,
    lim: nat,
)
    requires
        sv.wf(),
        sv.is_module(pred),
        sv.has_all(values),
        values.len() == ports.len(),
        stage_entry(sv, name, pred, ports, values).nodes.len() <= usize::MAX,
    ensures
        stage_entry(sv, name, pred, ports, values).wf(),
        advances(sv, stage_entry(sv, name, pred, ports, values), lim, sv.nodes.len()),
        entered(sv, stage_entry(sv, name, pred, ports, values), name, pred, ports, values),
        stage_values(
            stage_entry(sv, name, pred, ports, values),
            sv.next_key(),
            stage_remap(sv, name, pred, ports, values),
        ),
{
    let m = sv.next_key();
    let n = ports.len();
    let base = sv.nodes.len();
    let fifos = fifos_of(m, n);
    let infos = stage_ports(sv, ports, values);
    let made0 = sv.add_module(name, infos);
    let made = made0.with_current(m);
    let shaken = handshake(made, fifos);
    let linked0 = stitch(shaken, pred, m, fifos, values);
    let linked = linked0.with_current(m);
    let e = pop_each(linked, fifos, n);
    let remap = pop_remap(linked, ports, fifos, n);
    assert(e == stage_entry(sv, name, pred, ports, values));
    assert(remap == stage_remap(sv, name, pred, ports, values));
    // lengths
    assert(made.nodes.len() == base + 1 + n);
    lemma_handshake_len(made, fifos);
    lemma_bind_each_len(
        shaken.with_current(pred).emit_bind(m),
        shaken.next_key(),
        fifos,
        values,
        n,
    );
    assert(linked0.nodes.len() == shaken.nodes.len() + n + 2);
    lemma_pop_each_len(linked, fifos, n);
    assert(e.nodes.len() == base + 5 * n + 3);
    // the module
    sv.lemma_add_module(name, infos);
    lemma_add_module_advances(sv, name, infos, m, lim, base);
    assert(forall|k: usize| made.node_ok(k) == made0.node_ok(k));
    assert(made.wf());
    assert(made.is_module(m));
    assert(made.ports(m) =~= fifos);
    assert forall|i: int| 0 <= i < fifos.len() implies made.has(#[trigger] fifos[i]) by {}
    // the handshake
    lemma_handshake(made, fifos, base);
    assert forall|x: usize|
        shaken.has(x) && !made.has(x) && #[trigger] shaken.opcode(x)
            == Opcode::AsyncCall implies shaken.operands(x).len() == 1 && shaken.operands(x)[0]
        >= base by {
        assert(fresh(shaken, x, m, handshake_class()));
    }
    lemma_emits_advances(made, shaken, m, lim, base, handshake_class());
    lemma_advances_trans(sv, made, shaken, lim, base, base);
    // the link
    assert(kept(made, shaken, m, base));
    assert(kept(sv, made, pred, base));
    assert(kept(made, shaken, pred, base));
    assert forall|i: int| 0 <= i < fifos.len() implies shaken.has(#[trigger] fifos[i]) by {}
    assert forall|i: int| 0 <= i < values.len() implies shaken.has(#[trigger] values[i]) by {
        assert(sv.has(values[i]));
    }
    lemma_stitch(shaken, pred, m, fifos, values, base);
    let bind = shaken.next_key();
    assert forall|x: usize|
        linked0.has(x) && !shaken.has(x) && #[trigger] linked0.opcode(x)
            == Opcode::AsyncCall implies linked0.operands(x).len() == 1 && linked0.operands(x)[0]
        >= base by {
        if x == bind {
        } else if x < bind + 1 + n {
            let i = x - bind - 1;
            assert(is_push_of(
                linked0,
                span((bind + 1) as nat, (bind + 1 + n) as nat)[i],
                fifos[i],
                values[i],
            ));
        } else {
            assert(x == bind + 1 + n);
        }
    }
    lemma_emits_advances(shaken.with_current(pred), linked0, pred, lim, base, link_class());
    assert(advances(shaken, linked0, lim, base)) by {
        assert forall|x: usize| shaken.has(x) implies #[trigger] kept(shaken, linked0, x, base) by {
            assert(kept(shaken.with_current(pred), linked0, x, base));
        }
        assert forall|x: usize| shaken.is_module(x) implies #[trigger] mixed(
            shaken,
            linked0,
            x,
        ) by {
            assert(mixed(shaken.with_current(pred), linked0, x));
        }
    }
    lemma_advances_trans(sv, shaken, linked0, lim, base, base);
    // the pops
    assert(forall|k: usize| linked.node_ok(k) == linked0.node_ok(k));
    assert(linked.wf());
    assert(kept(shaken.with_current(pred), linked0, m, base));
    assert forall|i: int| 0 <= i < fifos.len() implies linked.has(#[trigger] fifos[i]) by {}
    lemma_pop_each(linked, ports, fifos, n, base);
    assert forall|x: usize|
        e.has(x) && !linked.has(x) && #[trigger] e.opcode(x) == Opcode::AsyncCall implies e.operands(
        x,
    ).len() == 1 && e.operands(x)[0] >= base by {
        assert(fresh(e, x, m, pop_class()));
    }
    lemma_emits_advances(linked, e, m, lim, base, pop_class());
    assert(advances(linked0, e, lim, base)) by {
        assert forall|x: usize| linked0.has(x) implies #[trigger] kept(linked0, e, x, base) by {
            assert(kept(linked, e, x, base));
        }
        assert forall|x: usize| linked0.is_module(x) implies #[trigger] mixed(linked0, e, x) by {
            assert(mixed(linked, e, x));
        }
    }
    lemma_advances_trans(sv, linked0, e, lim, base, base);
    // what the entry holds
    assert(kept(linked, e, m, base));
    assert(kept(shaken.with_current(pred), linked0, pred, base));
    assert(kept(linked, e, pred, base));
    assert(e.ports(m) == fifos);
    assert forall|i: int| 0 <= i < n implies e.nodes[m + 1 + i] == NodeView::Fifo(
        FifoView {
            name: buffered_name(#[trigger] ports[i]),
            dtype: sv.dtype_of(values[i]),
            module: m,
        },
    ) by {
        let f = (m + 1 + i) as usize;
        assert(made.nodes[m + 1 + i] == NodeView::Fifo(
            FifoView { name: infos[i].name, dtype: infos[i].dtype, module: m },
        ));
        assert(kept(made, shaken, f, base));
        assert(kept(shaken.with_current(pred), linked0, f, base));
        assert(kept(linked, e, f, base));
    }
    assert(made.body(m) =~= Seq::<usize>::empty());
    assert(shaken.body(m) =~= span((m + n + 1) as nat, (m + 3 * n + 1) as nat));
    assert(linked0.body(m) == shaken.body(m));
    assert(e.body(m) =~= span((m + n + 1) as nat, (m + 3 * n + 1) as nat) + span(
        (m + 4 * n + 3) as nat,
        (m + 5 * n + 3) as nat,
    ));
    assert(made.body(pred) == sv.body(pred));
    assert(shaken.body(pred) == made.body(pred));
    assert(e.body(pred) == linked.body(pred));
    assert(e.body(pred) =~= sv.body(pred) + span((m + 3 * n + 1) as nat, (m + 4 * n + 3) as nat));
    assert forall|x: usize| m + n + 1 <= x < m + 3 * n + 1 implies #[trigger] fresh(
        e,
        x,
        m,
        handshake_class(),
    ) by {
        assert(fresh(shaken, x, m, handshake_class()));
        assert(kept(shaken.with_current(pred), linked0, x, base));
        assert(kept(linked, e, x, base));
    }
    assert forall|x: usize| m + 3 * n + 1 <= x < m + 4 * n + 3 implies #[trigger] fresh(
        e,
        x,
        pred,
        link_class(),
    ) by {
        assert(fresh(linked0, x, pred, link_class()));
        assert(kept(linked, e, x, base));
    }
    assert forall|x: usize| m + 4 * n + 3 <= x < m + 5 * n + 3 implies #[trigger] fresh(
        e,
        x,
        m,
        pop_class(),
    ) by {}
    if n > 0 {
        let w = (m + 3 * n) as usize;
        assert(is_wait_on_all(shaken, w, fifos));
        assert(kept(shaken.with_current(pred), linked0, w, base));
        assert(kept(linked, e, w, base));
        lemma_and_reduction_kept(shaken, linked0, shaken.operands(w)[0], fifos, n, base);
        lemma_and_reduction_kept(linked0, e, shaken.operands(w)[0], fifos, n, base);
    }
    assert forall|x: usize| m + n + 1 <= x < m + 3 * n && e.has(x) implies #[trigger] e.opcode(x)
        != crate::ir::wait_opcode() by {
        assert(kept(shaken.with_current(pred), linked0, x, base));
        assert(kept(linked, e, x, base));
        assert(fresh(shaken, x, m, handshake_class()));
    }
    // the link is kept by the pops
    assert(is_link_of(e, bind, m, fifos, values)) by {
        assert(kept(linked, e, bind, linked.nodes.len())) by {
            lemma_pop_each(linked, ports, fifos, n, linked.nodes.len());
        }
        assert forall|i: int| 0 <= i < n implies is_push_of(
            e,
            #[trigger] span((bind + 1) as nat, (bind + 1 + n) as nat)[i],
            fifos[i],
            values[i],
        ) by {
            let x = span((bind + 1) as nat, (bind + 1 + n) as nat)[i];
            assert(is_push_of(linked0, x, fifos[i], values[i]));
            assert(kept(linked, e, x, base));
        }
        assert(kept(linked, e, (bind + 1 + n) as usize, base));
    }
    // what stands for the ports
    assert forall|k: usize| remap.contains_key(k) implies stage_value(
        e,
        m,
        #[trigger] remap[k],
    ) by {
        let y = remap[k];
        assert(linked.nodes.len() <= y < linked.nodes.len() + n);
        assert(fresh(e, y, m, pop_class()));
    }
}


/// What the last stage leaves of the source module's call: if the scan
/// found a bind, the bind has one push for each recorded value, each to a
/// port of the callee that has the name of the FIFO recorded with the
/// value, with what stands for the value in the stage; and the call that
/// fires the bind is the last node. Without a bind nothing is added.
pub open spec fn reissued(
    sv: SysView,
    r: SysView,
    scan: ScanView,
    remap: Map<usize, usize>,
) -> bool {
    let nv = scan.values.len();
    match scan.bind {
        None => r.nodes.len() == sv.nodes.len(),
        Some(b) => {
            &&& r.nodes.len() == sv.nodes.len() + nv + 1
            &&& r.is_bind(b)
            &&& r.operands(b) == sv.operands(b) + span(sv.nodes.len(), sv.nodes.len() + nv)
            &&& forall|i: int|
                0 <= i < nv ==> remap.contains_key(#[trigger] scan.values[i]) && sv.is_fifo(
                    scan.fifos[i],
                )
            &&& forall|i: int|
                0 <= i < nv ==> is_repush(
                    r,
                    #[trigger] span(sv.nodes.len(), sv.nodes.len() + nv)[i],
                    sv.operands(b)[0],
                    sv.fifo(scan.fifos[i]).name,
                    remap[scan.values[i]],
                )
            &&& is_call_of(r, (sv.nodes.len() + nv) as usize, b)
        },
    }
}

/// The hand-over at the end of the last stage: expressions below `lim` are
/// erased, and the call is appended to the stage module.
#[verifier::rlimit(80)]
#[verifier::spinoff_prover]
pub proof fn lemma_finish(
    sv: SysView,
    callers: Seq<usize>,
    cloned: Seq<usize>,
    scan: ScanView,
    remap: Map<usize, usize>,
    bound: nat,
    lim: nat,
    lo: nat,
)
    requires
        sv.wf(),
        sv.is_module(sv.current),
        sv.current >= lim,
        lo <= sv.nodes.len(),
        scan.values.len() == scan.fifos.len(),
        match scan.bind {
            Some(b) => sv.is_bind(b) && b >= lo,
            None => true,
        },
        all_below(callers, lim),
        all_below(cloned, lim),
        forall|k: usize| remap.contains_key(k) ==> sv.has(#[trigger] remap[k]),
        match finish(sv, callers, cloned, scan, remap, bound) {
            Ok(r) => r.nodes.len() <= usize::MAX,
            Err(_) => false,
        },
    ensures
        match finish(sv, callers, cloned, scan, remap, bound) {
            Ok(r) => {
                &&& r.wf()
                &&& r.current == sv.current
                &&& advances(sv, r, lim, lo)
                &&& r.body(sv.current) == sv.body(sv.current) + span(
                    sv.nodes.len(),
                    r.nodes.len(),
                )
                &&& all_fresh(r, sv.nodes.len(), r.nodes.len(), sv.current, link_class())
                &&& reissued(sv, r, scan, remap)
            },
            Err(_) => false,
        },
{
    let m = sv.current;
    let r = finish(sv, callers, cloned, scan, remap, bound)->Ok_0;
    let e1 = erase_down_of(sv, callers, bound);
    let e2 = crate::emission::erase_back(e1, cloned, cloned.len());
    lemma_erase_lens(sv, callers, bound, bound);
    lemma_erase_lens(e1, cloned, bound, cloned.len());
    lemma_erase_down(sv, callers, bound, bound, lim);
    lemma_erase_back(e1, cloned, cloned.len(), lim);
    lemma_erases_trans(sv, e1, e2, lim);
    lemma_erases_advances(sv, e2, lim, lo);
    assert(kept(sv, e2, m, sv.nodes.len()));
    assert(e2.body(m) == sv.body(m));
    match scan.bind {
        None => {
            assert(r == e2);
            assert(r.body(m) =~= sv.body(m) + span(sv.nodes.len(), r.nodes.len()));
        },
        Some(b) => {
            let nv = scan.values.len();
            let rb = rebind(e2, b, scan.values, scan.fifos, remap, nv)->Ok_0;
            assert(rebind(e2, b, scan.values, scan.fifos, remap, nv).is_ok());
            assert(r == rb.emit_call(b));
            assert(r.nodes.len() == rb.nodes.len() + 1);
            assert(kept(sv, e2, b, sv.nodes.len()));
            assert forall|k: usize| remap.contains_key(k) implies e2.has(#[trigger] remap[k]) by {
                assert(sv.has(remap[k]));
            }
            lemma_rebind(e2, b, scan.values, scan.fifos, remap, nv, lo);
            assert(kept(e2, rb, m, lo));
            assert(kept(e2, rb, b, lo));
            lemma_step_emit(rb, Opcode::AsyncCall, seq![b], crate::ir::DataType::Void, lo, call_class());
            lemma_emits_widen(e2, rb, m, lo, push_class(), lo, link_class());
            lemma_emits_widen(rb, r, m, lo, call_class(), lo, link_class());
            lemma_emits_trans(e2, rb, r, m, lo, link_class());
            assert forall|x: usize|
                r.has(x) && !e2.has(x) && #[trigger] r.opcode(x)
                    == Opcode::AsyncCall implies r.operands(x).len() == 1 && r.operands(x)[0]
                >= lo by {
                if rb.has(x) {
                    assert(fresh(rb, x, m, push_class()));
                    assert(kept(rb, r, x, lo));
                }
            }
            lemma_emits_advances(e2, r, m, lim, lo, link_class());
            lemma_advances_trans(sv, e2, r, lim, lo, lo);
            assert(r.body(m) =~= sv.body(m) + span(sv.nodes.len(), r.nodes.len()));
            assert(kept(rb, r, b, lo));
            assert(r.operands(b) == rb.operands(b));
            assert(e2.operands(b) == sv.operands(b));
            assert forall|i: int| 0 <= i < nv implies remap.contains_key(
                #[trigger] scan.values[i],
            ) && sv.is_fifo(scan.fifos[i]) by {
                assert(remap.contains_key(scan.values[i]));
                assert(e2.is_fifo(scan.fifos[i]));
                assert(kept(sv, e2, scan.fifos[i], sv.nodes.len()));
            }
            assert(sv.node_ok(b));
            assert forall|i: int| 0 <= i < nv implies is_repush(
                r,
                #[trigger] span(sv.nodes.len(), sv.nodes.len() + nv)[i],
                sv.operands(b)[0],
                sv.fifo(scan.fifos[i]).name,
                remap[scan.values[i]],
            ) by {
                let x = span(sv.nodes.len(), sv.nodes.len() + nv)[i];
                assert(x == span(e2.nodes.len(), e2.nodes.len() + nv)[i]);
                assert(is_repush(
                    rb,
                    x,
                    e2.operands(b)[0],
                    e2.fifo(scan.fifos[i]).name,
                    remap[scan.values[i]],
                ));
                assert(kept(rb, r, x, lo));
                assert(rb.node_ok(x));
                assert(rb.has(rb.operands(x)[0]));
                assert(kept(rb, r, rb.operands(x)[0], lo));
                assert(remap.contains_key(scan.values[i]));
                assert(e2.is_fifo(scan.fifos[i]));
                assert(kept(sv, e2, scan.fifos[i], sv.nodes.len()));
            }
        },
    }
    assert forall|x: usize| sv.nodes.len() <= x < r.nodes.len() implies #[trigger] fresh(
        r,
        x,
        m,
        link_class(),
    ) by {}
}

/// The system after the marked keys below `bound` were erased.
pub open spec fn erase_down_of(sv: SysView, marks: Seq<usize>, bound: nat) -> SysView {
    crate::emission::erase_down(sv, marks, bound, bound)
}


/// The scan that the stage makes: of the caller expressions if it is the
/// last stage, none otherwise.
pub open spec fn stage_scan(e: SysView, callers: Seq<usize>, bound: nat, last: bool) -> ScanView {
    if last {
        scan_callers(scan_start(e), callers, bound)
    } else {
        scan_start(e)
    }
}

/// The state in which the stage starts to clone its body.
pub open spec fn clone_start(scan: ScanView, remap: Map<usize, usize>, skipped: Seq<usize>) -> CloneView {
    CloneView { sys: scan.sys, remap, cloned: Seq::empty(), skipped }
}

/// The scan and the cloning of a stage: binds and clones are appended to
/// the stage module, the entry is kept as it is, and every clone has
/// values of the stage as operands.
#[verifier::rlimit(80)]
#[verifier::spinoff_prover]
pub proof fn lemma_scan_clone(
    e: SysView,
    remap: Map<usize, usize>,
    callers: Seq<usize>,
    body: Seq<usize>,
    bound: nat,
    last: bool,
    skipped: Seq<usize>,
)
    requires
        e.wf(),
        e.is_module(e.current),
        bound <= e.nodes.len(),
        stage_values(e, e.current, remap),
        match clone_body(
            clone_start(stage_scan(e, callers, bound, last), remap, skipped),
            body,
            bound,
        ) {
            Ok(cl) => cl.sys.nodes.len() <= usize::MAX,
            Err(_) => false,
        },
    ensures
        match clone_body(
            clone_start(stage_scan(e, callers, bound, last), remap, skipped),
            body,
            bound,
        ) {
            Ok(cl) => {
                let scan = stage_scan(e, callers, bound, last);
                &&& cl.sys.wf()
                &&& cl.sys.current == e.current
                &&& emits(e, cl.sys, e.current, e.nodes.len(), build_class())
                &&& scanned_from(e, callers, bound, scan)
                &&& last ==> scan_complete(e, callers, bound, scan)
                &&& match scan.bind {
                    Some(b) => cl.sys.is_bind(b) && cl.sys.operands(b).len() == 1
                        && cl.sys.operands(b) == scan.sys.operands(b) && b >= e.nodes.len(),
                    None => true,
                }
                &&& stage_values(cl.sys, e.current, cl.remap)
                &&& forall|x: usize|
                    cl.sys.has(x) && !e.has(x) ==> #[trigger] closed_operands(
                        cl.sys,
                        e.current,
                        x,
                    )
                &&& all_below(cl.cloned, bound)
            },
            Err(_) => false,
        },
{
    let m = e.current;
    let lo = e.nodes.len();
    let scan = stage_scan(e, callers, bound, last);
    let st = clone_start(scan, remap, skipped);
    let cl = clone_body(st, body, bound)->Ok_0;
    lemma_clone_len(st, body, bound);
    lemma_scan_len(scan_start(e), callers, bound);
    if last {
        lemma_scan_callers(e, callers, bound, lo);
        lemma_scan_complete(e, callers, bound, lo);
    } else {
        crate::shape::lemma_emits_refl(e, m, lo, bind_class());
    }
    assert(emits(e, scan.sys, m, lo, bind_class()));
    assert(scan.sys.wf());
    assert(kept(e, scan.sys, m, lo));
    assert forall|k: usize| remap.contains_key(k) implies stage_value(
        scan.sys,
        m,
        #[trigger] remap[k],
    ) by {
        assert(stage_value(e, m, remap[k]));
        assert(kept(e, scan.sys, remap[k], lo));
    }
    lemma_clone_body(st, body, bound, scan.sys.nodes.len());
    lemma_emits_widen(scan.sys, cl.sys, m, scan.sys.nodes.len(), clone_class(), lo, build_class());
    lemma_emits_widen(e, scan.sys, m, lo, bind_class(), lo, build_class());
    lemma_emits_trans(e, scan.sys, cl.sys, m, lo, build_class());
    match scan.bind {
        Some(b) => {
            assert(kept(scan.sys, cl.sys, b, scan.sys.nodes.len()));
        },
        None => {},
    }
    assert forall|x: usize| cl.sys.has(x) && !e.has(x) implies #[trigger] closed_operands(
        cl.sys,
        m,
        x,
    ) by {
        if scan.sys.has(x) {
            assert(fresh(scan.sys, x, m, bind_class()));
            assert(kept(scan.sys, cl.sys, x, scan.sys.nodes.len()));
        }
    }
}

/// `r` is `e` after the work of the stage in the module `m`: the nodes of
/// `e` are as they were, the body of `m` has the new nodes appended, each
/// a clone or part of a call, and every clone has values of the stage as
/// operands.
pub open spec fn worked(e: SysView, r: SysView, m: usize) -> bool {
    &&& e.nodes.len() <= r.nodes.len()
    &&& forall|x: usize| e.has(x) ==> #[trigger] kept(e, r, x, e.nodes.len())
    &&& r.body(m) == e.body(m) + span(e.nodes.len(), r.nodes.len())
    &&& all_fresh(r, e.nodes.len(), r.nodes.len(), m, work_class())
    &&& forall|x: usize| e.nodes.len() <= x < r.nodes.len() ==> #[trigger] closed_operands(r, m, x)
    &&& forall|x: usize|
        e.nodes.len() <= x < r.nodes.len() ==> #[trigger] fires_from(r, x, e.nodes.len())
}

/// If `x` is a call, it fires a bind with a key from `lo` on.
pub open spec fn fires_from(r: SysView, x: usize, lo: nat) -> bool {
    r.is_expr(x) && r.opcode(x) == Opcode::AsyncCall ==> r.operands(x).len() == 1 && r.operands(
        x,
    )[0] >= lo
}

/// What the last stage took over from the source module: if one of the
/// caller expressions is a bind, the stage module holds a bind to the
/// callee of one of them, with one push for each recorded value, and the
/// call that fires it as its last node. Each push goes to a port of the
/// callee that has the name of the FIFO that a caller expression pushed
/// the value to, and carries what stands for the value in the stage.
pub open spec fn took_over(
    e: SysView,
    r: SysView,
    m: usize,
    callers: Seq<usize>,
    bound: nat,
    scan: ScanView,
    remap: Map<usize, usize>,
) -> bool {
    let nv = scan.values.len();
    &&& scan_complete(e, callers, bound, scan)
    &&& forall|x: usize|
        e.nodes.len() <= x < r.nodes.len() && r.is_expr(x) && #[trigger] r.opcode(x)
            == Opcode::AsyncCall ==> scan.bind.is_some() && x == r.nodes.len() - 1
    &&& match scan.bind {
        None => true,
        Some(b) => {
            let callee = r.operands(b)[0];
            let first = (r.nodes.len() - 1 - nv) as nat;
            &&& r.nodes.len() >= e.nodes.len() + 1 + nv
            &&& fresh(r, b, m, bind_class())
            &&& r.operands(b) == seq![callee] + span(first, first + nv)
            &&& crate::shape::bound_below(e, callers, bound, callee)
            &&& forall|i: int|
                0 <= i < nv ==> {
                    &&& crate::shape::pushed_below(
                        e,
                        callers,
                        bound,
                        #[trigger] scan.fifos[i],
                        scan.values[i],
                    )
                    &&& e.is_fifo(scan.fifos[i])
                    &&& remap.contains_key(scan.values[i])
                    &&& stage_value(r, m, remap[scan.values[i]])
                }
            &&& forall|i: int|
                0 <= i < nv ==> is_repush(
                    r,
                    #[trigger] span(first, first + nv)[i],
                    callee,
                    e.fifo(scan.fifos[i]).name,
                    remap[scan.values[i]],
                )
            &&& is_call_of(r, (r.nodes.len() - 1) as usize, b)
        },
    }
}

/// What the stage leaves when it is done, given that its cloning went well.
pub open spec fn stage_done(
    cl: CloneView,
    callers: Seq<usize>,
    scan: ScanView,
    bound: nat,
    last: bool,
) -> Result<SysView, Failure> {
    if last {
        finish(cl.sys, callers, cl.cloned, scan, cl.remap, bound)
    } else {
        Ok(cl.sys)
    }
}

/// The hand-over at the end of the last stage leaves none of the caller
/// expressions in the body of a module other than the stage module.
pub proof fn lemma_finish_gone(
    sv: SysView,
    callers: Seq<usize>,
    cloned: Seq<usize>,
    scan: ScanView,
    remap: Map<usize, usize>,
    bound: nat,
    lim: nat,
    lo: nat,
    p: usize,
    x: usize,
)
    requires
        sv.wf(),
        sv.is_module(sv.current),
        sv.current >= lim,
        lo <= sv.nodes.len(),
        scan.values.len() == scan.fifos.len(),
        match scan.bind {
            Some(b) => sv.is_bind(b) && b >= lo,
            None => true,
        },
        all_below(callers, lim),
        all_below(cloned, lim),
        forall|k: usize| remap.contains_key(k) ==> sv.has(#[trigger] remap[k]),
        match finish(sv, callers, cloned, scan, remap, bound) {
            Ok(r) => r.nodes.len() <= usize::MAX,
            Err(_) => false,
        },
        sv.is_module(p),
        p != sv.current,
        callers.contains(x),
        x < bound,
    ensures
        !finish(sv, callers, cloned, scan, remap, bound)->Ok_0.body(p).contains(x),
{
    let m = sv.current;
    let r = finish(sv, callers, cloned, scan, remap, bound)->Ok_0;
    let e1 = erase_down_of(sv, callers, bound);
    let e2 = crate::emission::erase_back(e1, cloned, cloned.len());
    lemma_erase_lens(sv, callers, bound, bound);
    lemma_erase_lens(e1, cloned, bound, cloned.len());
    lemma_erase_down(sv, callers, bound, bound, lim);
    crate::shape::lemma_erase_down_gone(sv, callers, bound, bound, lim, p, x);
    lemma_erase_back(e1, cloned, cloned.len(), lim);
    lemma_erases_trans(sv, e1, e2, lim);
    assert(kept(sv, e1, p, sv.nodes.len()));
    assert(e1.is_module(p));
    assert(crate::shape::within(e2.body(p), e1.body(p)));
    assert(!e2.body(p).contains(x)) by {
        if e2.body(p).contains(x) {
            let j = choose|j: int| 0 <= j < e2.body(p).len() && e2.body(p)[j] == x;
            assert(e1.body(p).contains(e2.body(p)[j]));
        }
    }
    assert(kept(sv, e2, m, sv.nodes.len()));
    assert(kept(sv, e2, p, sv.nodes.len()));
    match scan.bind {
        None => {
            assert(r == e2);
        },
        Some(b) => {
            let nv = scan.values.len();
            let rb = rebind(e2, b, scan.values, scan.fifos, remap, nv)->Ok_0;
            assert(rebind(e2, b, scan.values, scan.fifos, remap, nv).is_ok());
            assert(r == rb.emit_call(b));
            assert(r.nodes.len() == rb.nodes.len() + 1);
            assert(kept(sv, e2, b, sv.nodes.len()));
            assert forall|k: usize| remap.contains_key(k) implies e2.has(#[trigger] remap[k]) by {
                assert(sv.has(remap[k]));
            }
            lemma_rebind(e2, b, scan.values, scan.fifos, remap, nv, lo);
            assert(kept(e2, rb, m, lo));
            assert(kept(e2, rb, b, lo));
            assert(kept(e2, rb, p, lo));
            lemma_step_emit(rb, Opcode::AsyncCall, seq![b], crate::ir::DataType::Void, lo, call_class());
            assert(rb.body(p) == e2.body(p));
            assert(r.body(p) == rb.body(p));
        },
    }
}

/// The work of a stage after its entry: the scan, the clones and, in the
/// last stage, the hand-over.
#[verifier::rlimit(80)]
#[verifier::spinoff_prover]
pub proof fn lemma_stage_work(
    e: SysView,
    remap: Map<usize, usize>,
    callers: Seq<usize>,
    calls: Seq<usize>,
    body: Seq<usize>,
    bound: nat,
    last: bool,
    skipped: Seq<usize>,
    lim: nat,
    base: nat,
)
    requires
        e.wf(),
        e.is_module(e.current),
        e.current >= lim,
        lim <= bound <= e.nodes.len(),
        base <= e.current,
        stage_values(e, e.current, remap),
        all_below(callers, lim),
        all_below(body, lim),
        match clone_body(
            clone_start(stage_scan(e, calls, bound, last), remap, skipped),
            body,
            bound,
        ) {
            Ok(cl) => match stage_done(
                cl,
                callers,
                stage_scan(e, calls, bound, last),
                bound,
                last,
            ) {
                Ok(r) => r.nodes.len() <= usize::MAX,
                Err(_) => false,
            },
            Err(_) => false,
        },
    ensures
        match clone_body(
            clone_start(stage_scan(e, calls, bound, last), remap, skipped),
            body,
            bound,
        ) {
            Ok(cl) => match stage_done(
                cl,
                callers,
                stage_scan(e, calls, bound, last),
                bound,
                last,
            ) {
                Ok(r) => {
                    &&& r.wf()
                    &&& advances(e, r, lim, base)
                    &&& worked(e, r, e.current)
                    &&& stage_values(r, e.current, cl.remap)
                    &&& last ==> took_over(
                        e,
                        r,
                        e.current,
                        calls,
                        bound,
                        stage_scan(e, calls, bound, last),
                        cl.remap,
                    )
                },
                Err(_) => false,
            },
            Err(_) => false,
        },
{
    let m = e.current;
    let lo = e.nodes.len();
    let scan = stage_scan(e, calls, bound, last);
    let st = clone_start(scan, remap, skipped);
    let cl = clone_body(st, body, bound)->Ok_0;
    let r = stage_done(cl, callers, scan, bound, last)->Ok_0;
    if last {
        lemma_erase_lens(cl.sys, callers, bound, bound);
        lemma_erase_lens(erase_down_of(cl.sys, callers, bound), cl.cloned, bound, cl.cloned.len());
        match scan.bind {
            Some(b) => {
                lemma_rebind_len(
                    crate::emission::erase_back(
                        erase_down_of(cl.sys, callers, bound),
                        cl.cloned,
                        cl.cloned.len(),
                    ),
                    b,
                    scan.values,
                    scan.fifos,
                    cl.remap,
                    scan.values.len(),
                );
            },
            None => {},
        }
    }
    assert(cl.sys.nodes.len() <= r.nodes.len());
    lemma_scan_clone(e, remap, calls, body, bound, last, skipped);
    assert forall|x: usize|
        cl.sys.has(x) && !e.has(x) && #[trigger] cl.sys.opcode(x)
            == Opcode::AsyncCall implies cl.sys.operands(x).len() == 1 && cl.sys.operands(x)[0]
        >= base by {
        assert(fresh(cl.sys, x, m, build_class()));
    }
    lemma_emits_widen(e, cl.sys, m, lo, build_class(), base, work_class());
    lemma_emits_advances(e, cl.sys, m, lim, base, work_class());
    assert(kept(e, cl.sys, m, lo));
    if last {
        assert forall|i: int| 0 <= i < cl.cloned.len() implies (#[trigger] cl.cloned[i]) < lim by {
            lemma_cloned_of_body(st, body, bound, i);
            let c = cl.cloned[i];
            let j = choose|j: int| 0 <= j < body.len() && body[j] == c;
            assert(body[j] < lim);
        }
        assert forall|k: usize| cl.remap.contains_key(k) implies cl.sys.has(
            #[trigger] cl.remap[k],
        ) by {
            assert(stage_value(cl.sys, m, cl.remap[k]));
        }
        lemma_finish(cl.sys, callers, cl.cloned, scan, cl.remap, bound, lim, lo);
        lemma_advances_lower(cl.sys, r, lim, lo, base);
        lemma_advances_trans(e, cl.sys, r, lim, base, base);
        assert forall|x: usize| e.has(x) implies #[trigger] kept(e, r, x, lo) by {
            assert(kept(e, cl.sys, x, lo));
            assert(kept(cl.sys, r, x, lo));
            crate::shape::lemma_kept_trans(e, cl.sys, r, x, lo);
        }
        assert(r.body(m) =~= e.body(m) + span(lo, r.nodes.len()));
        assert forall|x: usize| lo <= x < r.nodes.len() implies #[trigger] fresh(
            r,
            x,
            m,
            work_class(),
        ) by {
            if cl.sys.has(x) {
                assert(fresh(cl.sys, x, m, build_class()));
                assert(kept(cl.sys, r, x, lo));
            } else {
                assert(fresh(r, x, m, link_class()));
            }
        }
        assert forall|x: usize| lo <= x < r.nodes.len() implies #[trigger] closed_operands(
            r,
            m,
            x,
        ) by {
            if cl.sys.has(x) {
                assert(closed_operands(cl.sys, m, x));
                assert(fresh(cl.sys, x, m, build_class()));
                assert(cl.sys.node_ok(x));
                if cl.sys.opcode(x) != Opcode::Bind {
                    crate::shape::lemma_closed_kept(cl.sys, r, m, x, lo);
                } else {
                    assert(kept(cl.sys, r, x, lo));
                }
            } else {
                assert(fresh(r, x, m, link_class()));
            }
        }
        assert forall|x: usize| lo <= x < r.nodes.len() implies #[trigger] fires_from(
            r,
            x,
            lo,
        ) by {
            if cl.sys.has(x) {
                assert(fresh(cl.sys, x, m, build_class()));
                assert(kept(cl.sys, r, x, lo));
            } else {
                assert(made(r, x, lo));
            }
        }
        lemma_took_over(e, cl, r, m, calls, bound, scan, lo);
        assert forall|k: usize| cl.remap.contains_key(k) implies stage_value(
            r,
            m,
            #[trigger] cl.remap[k],
        ) by {
            assert(stage_value(cl.sys, m, cl.remap[k]));
            assert(kept(cl.sys, r, cl.remap[k], lo));
        }
    } else {
        assert(r == cl.sys);
        assert forall|x: usize| lo <= x < r.nodes.len() implies #[trigger] fresh(
            r,
            x,
            m,
            work_class(),
        ) by {
            assert(fresh(r, x, m, build_class()));
        }
        assert forall|x: usize| lo <= x < r.nodes.len() implies #[trigger] fires_from(
            r,
            x,
            lo,
        ) by {
            assert(fresh(r, x, m, build_class()));
        }
    }
}

/// What was cloned is of the body.
pub proof fn lemma_cloned_of_body(st: CloneView, body: Seq<usize>, c: nat, i: int)
    requires
        st.cloned.len() == 0,
        clone_body(st, body, c).is_ok(),
        0 <= i < clone_body(st, body, c)->Ok_0.cloned.len(),
    ensures
        body.contains(clone_body(st, body, c)->Ok_0.cloned[i]),
    decreases c,
{
    if c > 0 {
        let prev = clone_body(st, body, (c - 1) as nat)->Ok_0;
        if i < prev.cloned.len() {
            lemma_cloned_of_body(st, body, (c - 1) as nat, i);
        }
    }
}

/// The hand-over, seen from the entry of the stage.
proof fn lemma_took_over(
    e: SysView,
    cl: CloneView,
    r: SysView,
    m: usize,
    callers: Seq<usize>,
    bound: nat,
    scan: ScanView,
    lo: nat,
)
    requires
        lo == e.nodes.len(),
        m == e.current,
        e.nodes.len() <= cl.sys.nodes.len(),
        scanned_from(e, callers, bound, scan),
        scan_complete(e, callers, bound, scan),
        emits(e, cl.sys, m, lo, build_class()),
        match scan.bind {
            Some(b) => cl.sys.is_bind(b) && cl.sys.operands(b).len() == 1 && cl.sys.operands(b)
                == scan.sys.operands(b) && b >= e.nodes.len(),
            None => true,
        },
        stage_values(cl.sys, m, cl.remap),
        reissued(cl.sys, r, scan, cl.remap),
        forall|x: usize| cl.sys.has(x) ==> #[trigger] kept(cl.sys, r, x, lo),
        forall|x: usize| e.has(x) ==> #[trigger] kept(e, cl.sys, x, lo),
        all_fresh(r, e.nodes.len(), r.nodes.len(), m, work_class()),
        r.nodes.len() <= usize::MAX,
    ensures
        took_over(e, r, m, callers, bound, scan, cl.remap),
{
    let nv = scan.values.len();
    assert forall|x: usize|
        e.nodes.len() <= x < r.nodes.len() && r.is_expr(x) && #[trigger] r.opcode(x)
            == Opcode::AsyncCall implies scan.bind.is_some() && x == r.nodes.len() - 1 by {
        if cl.sys.has(x) {
            assert(fresh(cl.sys, x, m, build_class()));
            assert(kept(cl.sys, r, x, lo));
        } else {
            match scan.bind {
                None => {},
                Some(b) => {
                    if x < cl.sys.nodes.len() + nv {
                        let i = x - cl.sys.nodes.len();
                        assert(is_repush(
                            r,
                            span(cl.sys.nodes.len(), cl.sys.nodes.len() + nv)[i],
                            cl.sys.operands(b)[0],
                            cl.sys.fifo(scan.fifos[i]).name,
                            cl.remap[scan.values[i]],
                        ));
                    }
                },
            }
        }
    }
    match scan.bind {
        None => {},
        Some(b) => {
            let callee = r.operands(b)[0];
            let first = (r.nodes.len() - 1 - nv) as nat;
            assert(first == cl.sys.nodes.len());
            assert(fresh(r, b, m, work_class()));
            assert(r.operands(b) =~= seq![callee] + span(first, first + nv));
            assert(callee == scan.sys.operands(b)[0]);
            assert forall|i: int| 0 <= i < nv implies {
                &&& crate::shape::pushed_below(
                    e,
                    callers,
                    bound,
                    #[trigger] scan.fifos[i],
                    scan.values[i],
                )
                &&& e.is_fifo(scan.fifos[i])
                &&& cl.remap.contains_key(scan.values[i])
                &&& stage_value(r, m, cl.remap[scan.values[i]])
            } by {
                let f = scan.fifos[i];
                let v = scan.values[i];
                assert(cl.remap.contains_key(v) && cl.sys.is_fifo(f));
                assert(stage_value(cl.sys, m, cl.remap[v]));
                assert(kept(cl.sys, r, cl.remap[v], lo));
                if e.has(f) {
                    assert(kept(e, cl.sys, f, lo));
                } else {
                    assert(kept(cl.sys, r, f, lo));
                    assert(fresh(r, f, m, work_class()));
                }
            }
            assert forall|i: int| 0 <= i < nv implies is_repush(
                r,
                #[trigger] span(first, first + nv)[i],
                callee,
                e.fifo(scan.fifos[i]).name,
                cl.remap[scan.values[i]],
            ) by {
                let f = scan.fifos[i];
                assert(is_repush(
                    r,
                    span(cl.sys.nodes.len(), cl.sys.nodes.len() + nv)[i],
                    cl.sys.operands(b)[0],
                    cl.sys.fifo(f).name,
                    cl.remap[scan.values[i]],
                ));
                assert(cl.remap.contains_key(scan.values[i]) && cl.sys.is_fifo(f));
                if e.has(f) {
                    assert(kept(e, cl.sys, f, lo));
                } else {
                    assert(kept(cl.sys, r, f, lo));
                    assert(fresh(r, f, m, work_class()));
                }
            }
        },
    }
}


/// The work of a stage takes no node away.
pub proof fn lemma_stage_work_len(
    e: SysView,
    remap: Map<usize, usize>,
    callers: Seq<usize>,
    calls: Seq<usize>,
    body: Seq<usize>,
    bound: nat,
    last: bool,
    skipped: Seq<usize>,
)
    ensures
        match clone_body(
            clone_start(stage_scan(e, calls, bound, last), remap, skipped),
            body,
            bound,
        ) {
            Ok(cl) => match stage_done(
                cl,
                callers,
                stage_scan(e, calls, bound, last),
                bound,
                last,
            ) {
                Ok(r) => e.nodes.len() <= r.nodes.len(),
                Err(_) => true,
            },
            Err(_) => true,
        },
{
    let scan = stage_scan(e, calls, bound, last);
    let st = clone_start(scan, remap, skipped);
    lemma_scan_len(scan_start(e), calls, bound);
    lemma_clone_len(st, body, bound);
    match clone_body(st, body, bound) {
        Ok(cl) => {
            if last {
                lemma_erase_lens(cl.sys, callers, bound, bound);
                let e1 = erase_down_of(cl.sys, callers, bound);
                lemma_erase_lens(e1, cl.cloned, bound, cl.cloned.len());
                match scan.bind {
                    Some(b) => {
                        lemma_rebind_len(
                            crate::emission::erase_back(e1, cl.cloned, cl.cloned.len()),
                            b,
                            scan.values,
                            scan.fifos,
                            cl.remap,
                            scan.values.len(),
                        );
                    },
                    None => {},
                }
            }
        },
        Err(_) => {},
    }
}

/// The entry of a stage on `n` ports is `5n + 3` nodes.
pub proof fn lemma_stage_entry_len(
    sv: SysView,
    name: Seq<char>,
    pred: usize,
    ports: Seq<usize>,
    values: Seq<usize>,
)
    ensures
        stage_entry(sv, name, pred, ports, values).nodes.len() == sv.nodes.len() + 5 * ports.len()
            + 3,
{
    let m = sv.next_key();
    let n = ports.len();
    let fifos = fifos_of(m, n);
    let made = sv.add_module(name, stage_ports(sv, ports, values)).with_current(m);
    let shaken = handshake(made, fifos);
    let linked = stitch(shaken, pred, m, fifos, values).with_current(m);
    lemma_handshake_len(made, fifos);
    lemma_bind_each_len(shaken.with_current(pred).emit_bind(m), shaken.next_key(), fifos, values, n);
    lemma_pop_each_len(linked, fifos, n);
}

/// Every value of `map` addresses a node of `sv`.
pub open spec fn valid_values(sv: SysView, map: Map<usize, usize>) -> bool {
    forall|k: usize| map.contains_key(k) ==> sv.has(#[trigger] map[k])
}

/// Every one of `modules` is a module of `sv`.
pub open spec fn all_modules(sv: SysView, modules: Seq<usize>) -> bool {
    forall|i: int| 0 <= i < modules.len() ==> sv.is_module(#[trigger] modules[i])
}

/// The state of a rewrite is sound: the system is well formed, what is
/// handed over exists, and the modules of the levels are modules.
pub open spec fn sound(run: RunView) -> bool {
    &&& run.sys.wf()
    &&& valid_values(run.sys, run.handoff)
    &&& all_modules(run.sys, run.modules)
    &&& run.modules.len() >= 1
}

/// The entry of the stage at level `k` that is built on the state `run`.
pub open spec fn entry_of(run: RunView, c: ContainerView, k: nat, stage: StageView) -> SysView {
    stage_entry(
        run.sys,
        stage_name(c.name, k as usize),
        run.modules[k - 1],
        stage.ports,
        handed(run.handoff, stage.ports),
    )
}

/// The clones of a stage once its cloning went well.
pub open spec fn clones_of(run: RunView, c: ContainerView, k: nat, stage: StageView) -> CloneView {
    let e = entry_of(run, c, k, stage);
    let remap = stage_remap(
        run.sys,
        stage_name(c.name, k as usize),
        run.modules[k - 1],
        stage.ports,
        handed(run.handoff, stage.ports),
    );
    let last = k + 1 == c.order.len();
    clone_body(
        clone_start(stage_scan(e, run.calls, run.sys.nodes.len(), last), remap, run.skipped),
        stage.body,
        run.sys.nodes.len(),
    )->Ok_0
}

/// The values handed on stay within what stands for values in the stage.
pub proof fn lemma_hand_on_valid(
    handoff: Map<usize, usize>,
    remap: Map<usize, usize>,
    barriers: Seq<usize>,
    n: nat,
    sv: SysView,
    m: usize,
)
    requires
        stage_values(sv, m, remap),
        forall|k: usize| handoff.contains_key(k) ==> stage_value(sv, m, #[trigger] handoff[k]),
        hand_on(handoff, remap, barriers, n).is_ok(),
    ensures
        forall|k: usize| #[trigger]
            hand_on(handoff, remap, barriers, n)->Ok_0.contains_key(k) ==> stage_value(
                sv,
                m,
                hand_on(handoff, remap, barriers, n)->Ok_0[k],
            ),
    decreases n,
{
    if n > 0 {
        lemma_hand_on_valid(handoff, remap, barriers, (n - 1) as nat, sv, m);
    }
}

/// Where the cursor stands makes no difference to how a system has
/// advanced or to the work that it holds.
proof fn lemma_cursor(e: SysView, d: SysView, cur: usize, m: usize, lim: nat, base: nat)
    requires
        d.wf(),
        advances(e, d, lim, base),
        worked(e, d, m),
    ensures
        d.with_current(cur).wf(),
        advances(e, d.with_current(cur), lim, base),
        worked(e, d.with_current(cur), m),
{
    let r = d.with_current(cur);
    assert(forall|k: usize| r.node_ok(k) == d.node_ok(k));
    assert forall|x: usize| e.has(x) implies #[trigger] kept(e, r, x, base) by {
        assert(kept(e, d, x, base));
    }
    assert forall|x: usize| e.is_module(x) && x >= lim implies e.body(x).is_prefix_of(
        #[trigger] r.body(x),
    ) by {
        assert(e.body(x).is_prefix_of(d.body(x)));
    }
    assert forall|x: usize| e.is_module(x) implies #[trigger] mixed(e, r, x) by {
        assert(mixed(e, d, x));
        assert(r.body(x) == d.body(x));
    }
    assert forall|x: usize| r.has(x) && !e.has(x) implies #[trigger] made(r, x, base) by {
        assert(made(d, x, base));
    }
    assert forall|x: usize| e.has(x) implies #[trigger] kept(e, r, x, e.nodes.len()) by {
        assert(kept(e, d, x, e.nodes.len()));
    }
    assert forall|x: usize| e.nodes.len() <= x < r.nodes.len() implies #[trigger] fresh(
        r,
        x,
        m,
        work_class(),
    ) by {
        assert(fresh(d, x, m, work_class()));
    }
    assert forall|x: usize| e.nodes.len() <= x < r.nodes.len() implies #[trigger] closed_operands(
        r,
        m,
        x,
    ) by {
        assert(closed_operands(d, m, x));
    }
    assert forall|x: usize| e.nodes.len() <= x < r.nodes.len() implies #[trigger] fires_from(
        r,
        x,
        e.nodes.len(),
    ) by {
        assert(fires_from(d, x, e.nodes.len()));
    }
}

/// Where the cursor stands makes no difference to what the last stage took over.
proof fn lemma_took_over_cursor(
    e: SysView,
    d: SysView,
    cur: usize,
    m: usize,
    callers: Seq<usize>,
    bound: nat,
    scan: ScanView,
    remap: Map<usize, usize>,
)
    requires
        took_over(e, d, m, callers, bound, scan, remap),
    ensures
        took_over(e, d.with_current(cur), m, callers, bound, scan, remap),
{
    let r = d.with_current(cur);
    let nv = scan.values.len();
    assert forall|x: usize|
        e.nodes.len() <= x < r.nodes.len() && r.is_expr(x) && #[trigger] r.opcode(x)
            == Opcode::AsyncCall implies scan.bind.is_some() && x == r.nodes.len() - 1 by {
        assert(d.opcode(x) == Opcode::AsyncCall);
    }
    match scan.bind {
        None => {},
        Some(b) => {
            let callee = r.operands(b)[0];
            let first = (r.nodes.len() - 1 - nv) as nat;
            assert forall|i: int| 0 <= i < nv implies {
                &&& crate::shape::pushed_below(
                    e,
                    callers,
                    bound,
                    #[trigger] scan.fifos[i],
                    scan.values[i],
                )
                &&& e.is_fifo(scan.fifos[i])
                &&& remap.contains_key(scan.values[i])
                &&& stage_value(r, m, remap[scan.values[i]])
            } by {
                let fifo = scan.fifos[i];
                assert(crate::shape::pushed_below(e, callers, bound, fifo, scan.values[i]));
                assert(stage_value(d, m, remap[scan.values[i]]));
            }
            assert forall|i: int| 0 <= i < nv implies is_repush(
                r,
                #[trigger] span(first, first + nv)[i],
                callee,
                e.fifo(scan.fifos[i]).name,
                remap[scan.values[i]],
            ) by {
                assert(is_repush(
                    d,
                    span(first, first + nv)[i],
                    callee,
                    e.fifo(scan.fifos[i]).name,
                    remap[scan.values[i]],
                ));
            }
        },
    }
}

/// The rewrite of one stage: the system stays sound and advances; it holds
/// the entry of the stage and, after it, the work of the stage.
#[verifier::rlimit(80)]
#[verifier::spinoff_prover]
pub proof fn lemma_run_stage(run: RunView, c: ContainerView, k: nat, stage: StageView, lim: nat)
    requires
        sound(run),
        1 <= k <= run.modules.len(),
        lim <= run.sys.nodes.len(),
        all_below(c.callers, lim),
        all_below(stage.body, lim),
        match run_stage(run, c, k, stage) {
            Ok(r) => r.sys.nodes.len() <= usize::MAX,
            Err(_) => false,
        },
    ensures
        match run_stage(run, c, k, stage) {
            Ok(r) => {
                let m = run.sys.next_key();
                let e = entry_of(run, c, k, stage);
                let last = k + 1 == c.order.len();
                &&& sound(r)
                &&& r.modules == run.modules.push(m)
                &&& advances(run.sys, r.sys, lim, run.sys.nodes.len())
                &&& entered(
                    run.sys,
                    e,
                    stage_name(c.name, k as usize),
                    run.modules[k - 1],
                    stage.ports,
                    handed(run.handoff, stage.ports),
                )
                &&& worked(e, r.sys, m)
                &&& forall|p: usize| #[trigger]
                    r.handoff.contains_key(p) ==> stage_value(r.sys, m, r.handoff[p])
                &&& r.calls == run.calls
                &&& last ==> took_over(
                    e,
                    r.sys,
                    m,
                    run.calls,
                    run.sys.nodes.len(),
                    stage_scan(e, run.calls, run.sys.nodes.len(), last),
                    clones_of(run, c, k, stage).remap,
                )
            },
            Err(_) => false,
        },
{
    let r = run_stage(run, c, k, stage)->Ok_0;
    let sv = run.sys;
    let m = sv.next_key();
    let base = sv.nodes.len();
    let name = stage_name(c.name, k as usize);
    let pred = run.modules[k - 1];
    let values = handed(run.handoff, stage.ports);
    let e = entry_of(run, c, k, stage);
    let remap = stage_remap(sv, name, pred, stage.ports, values);
    let last = k + 1 == c.order.len();
    let scan = stage_scan(e, run.calls, base, last);
    let st = clone_start(scan, remap, run.skipped);
    assert(hands_all(run.handoff, stage.ports));
    assert(clone_body(st, stage.body, base).is_ok());
    let cl = clone_body(st, stage.body, base)->Ok_0;
    assert(stage_done(cl, c.callers, scan, base, last).is_ok());
    let d = stage_done(cl, c.callers, scan, base, last)->Ok_0;
    assert(r.sys == d.with_current(sv.current));
    lemma_stage_work_len(e, remap, c.callers, run.calls, stage.body, base, last, run.skipped);
    lemma_stage_entry_len(sv, name, pred, stage.ports, values);
    assert forall|i: int| 0 <= i < values.len() implies sv.has(#[trigger] values[i]) by {
        assert(run.handoff.contains_key(stage.ports[i]));
    }
    lemma_stage_entry(sv, name, pred, stage.ports, values, lim);
    lemma_stage_work(e, remap, c.callers, run.calls, stage.body, base, last, run.skipped, lim, base);
    lemma_cursor(e, d, sv.current, m, lim, base);
    if last {
        lemma_took_over_cursor(e, d, sv.current, m, run.calls, base, scan, cl.remap);
    }
    assert forall|q: usize| cl.remap.contains_key(q) implies stage_value(
        r.sys,
        m,
        #[trigger] cl.remap[q],
    ) by {
        assert(stage_value(d, m, cl.remap[q]));
    }
    lemma_advances_trans(sv, e, r.sys, lim, base, base);
    assert forall|i: int| 0 <= i < r.modules.len() implies r.sys.is_module(
        #[trigger] r.modules[i],
    ) by {
        if i < run.modules.len() {
            assert(sv.is_module(run.modules[i]));
            assert(kept(sv, r.sys, run.modules[i], base));
        } else {
            assert(kept(e, r.sys, m, e.nodes.len()));
        }
    }
    assert(forall|p: usize|
        Map::<usize, usize>::empty().contains_key(p) ==> stage_value(
            r.sys,
            m,
            #[trigger] Map::<usize, usize>::empty()[p],
        ));
    lemma_hand_on_valid(Map::empty(), cl.remap, stage.barriers, stage.barriers.len(), r.sys, m);
    assert forall|p: usize| r.handoff.contains_key(p) implies r.sys.has(
        #[trigger] r.handoff[p],
    ) by {
        assert(stage_value(r.sys, m, r.handoff[p]));
    }
}

/// The work of the last stage leaves none of the caller expressions in the
/// body of a module that the container speaks of.
pub proof fn lemma_stage_work_gone(
    e: SysView,
    remap: Map<usize, usize>,
    callers: Seq<usize>,
    calls: Seq<usize>,
    body: Seq<usize>,
    bound: nat,
    skipped: Seq<usize>,
    lim: nat,
    p: usize,
    x: usize,
)
    requires
        e.wf(),
        e.is_module(e.current),
        e.current >= lim,
        lim <= bound <= e.nodes.len(),
        stage_values(e, e.current, remap),
        all_below(callers, lim),
        all_below(body, lim),
        match clone_body(
            clone_start(stage_scan(e, calls, bound, true), remap, skipped),
            body,
            bound,
        ) {
            Ok(cl) => match stage_done(cl, callers, stage_scan(e, calls, bound, true), bound, true) {
                Ok(r) => r.nodes.len() <= usize::MAX,
                Err(_) => false,
            },
            Err(_) => false,
        },
        e.is_module(p),
        p < lim,
        callers.contains(x),
    ensures
        !stage_done(
            clone_body(
                clone_start(stage_scan(e, calls, bound, true), remap, skipped),
                body,
                bound,
            )->Ok_0,
            callers,
            stage_scan(e, calls, bound, true),
            bound,
            true,
        )->Ok_0.body(p).contains(x),
{
    let m = e.current;
    let lo = e.nodes.len();
    let scan = stage_scan(e, calls, bound, true);
    let st = clone_start(scan, remap, skipped);
    let cl = clone_body(st, body, bound)->Ok_0;
    lemma_erase_lens(cl.sys, callers, bound, bound);
    lemma_erase_lens(erase_down_of(cl.sys, callers, bound), cl.cloned, bound, cl.cloned.len());
    match scan.bind {
        Some(b) => {
            lemma_rebind_len(
                crate::emission::erase_back(
                    erase_down_of(cl.sys, callers, bound),
                    cl.cloned,
                    cl.cloned.len(),
                ),
                b,
                scan.values,
                scan.fifos,
                cl.remap,
                scan.values.len(),
            );
        },
        None => {},
    }
    lemma_scan_clone(e, remap, calls, body, bound, true, skipped);
    assert(kept(e, cl.sys, m, lo));
    assert(kept(e, cl.sys, p, lo));
    assert forall|i: int| 0 <= i < cl.cloned.len() implies (#[trigger] cl.cloned[i]) < lim by {
        lemma_cloned_of_body(st, body, bound, i);
        let c = cl.cloned[i];
        let j = choose|j: int| 0 <= j < body.len() && body[j] == c;
        assert(body[j] < lim);
    }
    assert forall|k: usize| cl.remap.contains_key(k) implies cl.sys.has(#[trigger] cl.remap[k]) by {
        assert(stage_value(cl.sys, m, cl.remap[k]));
    }
    let i = choose|i: int| 0 <= i < callers.len() && callers[i] == x;
    assert(callers[i] < lim);
    lemma_finish_gone(cl.sys, callers, cl.cloned, scan, cl.remap, bound, lim, lo, p, x);
}

/// The rewrite of the last stage leaves none of the caller expressions in
/// the body of a module that the container speaks of.
pub proof fn lemma_run_stage_gone(
    run: RunView,
    c: ContainerView,
    k: nat,
    stage: StageView,
    lim: nat,
    p: usize,
    x: usize,
)
    requires
        sound(run),
        1 <= k <= run.modules.len(),
        k + 1 == c.order.len(),
        lim <= run.sys.nodes.len(),
        all_below(c.callers, lim),
        all_below(stage.body, lim),
        match run_stage(run, c, k, stage) {
            Ok(r) => r.sys.nodes.len() <= usize::MAX,
            Err(_) => false,
        },
        run.sys.is_module(p),
        p < lim,
        c.callers.contains(x),
    ensures
        !run_stage(run, c, k, stage)->Ok_0.sys.body(p).contains(x),
{
    let r = run_stage(run, c, k, stage)->Ok_0;
    let sv = run.sys;
    let base = sv.nodes.len();
    let name = stage_name(c.name, k as usize);
    let pred = run.modules[k - 1];
    let values = handed(run.handoff, stage.ports);
    let e = entry_of(run, c, k, stage);
    let remap = stage_remap(sv, name, pred, stage.ports, values);
    let scan = stage_scan(e, run.calls, base, true);
    let st = clone_start(scan, remap, run.skipped);
    assert(hands_all(run.handoff, stage.ports));
    assert(clone_body(st, stage.body, base).is_ok());
    let cl = clone_body(st, stage.body, base)->Ok_0;
    assert(stage_done(cl, c.callers, scan, base, true).is_ok());
    let d = stage_done(cl, c.callers, scan, base, true)->Ok_0;
    assert(r.sys == d.with_current(sv.current));
    lemma_stage_work_len(e, remap, c.callers, run.calls, stage.body, base, true, run.skipped);
    lemma_stage_entry_len(sv, name, pred, stage.ports, values);
    assert forall|i: int| 0 <= i < values.len() implies sv.has(#[trigger] values[i]) by {
        assert(run.handoff.contains_key(stage.ports[i]));
    }
    lemma_stage_entry(sv, name, pred, stage.ports, values, lim);
    assert(kept(sv, e, p, base));
    lemma_stage_work_gone(e, remap, c.callers, run.calls, stage.body, base, run.skipped, lim, p, x);
    assert(r.sys.body(p) == d.body(p));
}

} // verus!
