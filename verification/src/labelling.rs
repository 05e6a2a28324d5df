//! When the stage walk labels the last stage with the module's outputs: a
//! node that is in the body of the last stage while that stage is open is
//! left at the level of that stage, so an output among them closes it.

use crate::analysis_shape::{
    apart, chained, done_or_below, follows, in_body, lemma_begin_edges, lemma_current_place,
    lemma_enter_bodies, lemma_enter_sound, lemma_join_apart, lemma_join_below, lemma_join_chained,
    lemma_put_below, lemma_same_bodies, lemma_walk_edges_tidy, lemma_walk_inputs_sound,
    lemma_walk_inputs_tidy, lemma_walk_sound, lemma_walk_tidy, sound_walk, step_ok, tidy,
};
use crate::graph::GraphView;
use crate::ir::SysView;
use crate::levels::{first_cut, CutView, NodeData};
use crate::stage::{fresh_stage, TableView};
use crate::staging::{enter, leave, seeded, walk, walk_edges, walk_inputs, WalkFailure, WalkView};
use vstd::prelude::*;

verus! {

/// The last stage of the table is open: nothing leaves it yet.
pub open spec fn last_open(t: TableView) -> bool {
    t.items.len() >= 1 && t.items[t.items.len() - 1].barriers.len() == 0
}

/// The body of the last stage of the table.
pub open spec fn last_body(t: TableView) -> Seq<usize> {
    t.items[t.items.len() - 1].body
}

/// The walk is at the level of the last stage.
pub open spec fn at_last(st: WalkView) -> bool {
    st.level == st.table.items.len() - 1
}

/// The node `x` waits in the last stage: the stage is open, and `x` is in
/// its body and not done.
pub open spec fn waits(st: WalkView, x: usize) -> bool {
    last_open(st.table) && last_body(st.table).contains(x) && !st.used.contains(x)
}

/// While the last stage is open, every output in its body waits there; and
/// while a node waits there, the walk is at the level of the last stage.
pub open spec fn pending_ok(st: WalkView, outputs: Seq<usize>) -> bool {
    &&& forall|x: usize|
        last_open(st.table) && outputs.contains(x) && #[trigger] last_body(st.table).contains(x)
            ==> !st.used.contains(x)
    &&& forall|x: usize| #[trigger] waits(st, x) ==> at_last(st)
}

/// The table `b` is a later state of the table `a`: the stages of `a` are
/// there, each with what its body held, and closed if it was closed.
pub open spec fn grows(a: TableView, b: TableView) -> bool {
    &&& a.items.len() <= b.items.len()
    &&& forall|i: int, x: usize|
        0 <= i < a.items.len() && #[trigger] a.items[i].body.contains(x) ==> b.items[i].body.contains(
            x,
        )
    &&& forall|i: int|
        0 <= i < a.items.len() && a.items[i].barriers.len() > 0 ==> (#[trigger] b.items[i]).barriers.len()
            > 0
}

pub proof fn lemma_grows_trans(a: TableView, b: TableView, c: TableView)
    requires
        grows(a, b),
        grows(b, c),
    ensures
        grows(a, c),
{
    assert forall|i: int, x: usize|
        0 <= i < a.items.len() && #[trigger] a.items[i].body.contains(x) implies c.items[i].body.contains(
        x,
    ) by {
        assert(b.items[i].body.contains(x));
    }
    assert forall|i: int| 0 <= i < a.items.len() && a.items[i].barriers.len() > 0 implies (
    #[trigger] c.items[i]).barriers.len() > 0 by {
        assert(b.items[i].barriers.len() > 0);
    }
}

/// The walk from `st` through `v` and below left `r`: the table is a later
/// state, what is newly done is `v` or greater, and if no stage was added
/// and the last stage is still open, a walk that was at its level still is.
pub open spec fn after(st: WalkView, r: WalkView, v: usize) -> bool {
    &&& grows(st.table, r.table)
    &&& forall|x: usize| #[trigger] r.used.contains(x) ==> st.used.contains(x) || x >= v
    &&& last_open(r.table) && r.table.items.len() == st.table.items.len() && at_last(st)
        ==> at_last(r)
}

/// A node that waits in a later state waited before, and no stage was added
/// since.
pub proof fn lemma_waits_back(a: WalkView, b: WalkView, x: usize)
    requires
        follows(a, b),
        grows(a.table, b.table),
        apart(b.table),
        waits(b, x),
    ensures
        waits(a, x),
        a.table.items.len() == b.table.items.len(),
{
    let lb = b.table.items.len() - 1;
    assert(b.table.items[lb].body.contains(x));
    assert(in_body(b.table, x));
    assert(in_body(a.table, x));
    let j = choose|j: int| 0 <= j < a.table.items.len() && (#[trigger] a.table.items[j]).body.contains(x);
    assert(b.table.items[j].body.contains(x));
    if j != lb {
        assert(!b.table.items[lb].body.contains(x));
    }
    if a.table.items[j].barriers.len() > 0 {
        assert(b.table.items[j].barriers.len() > 0);
    }
    if a.used.contains(x) {
        assert(b.used.contains(x));
    }
}

/// Reaching a node: the table is a later state; and if the current stage
/// is then the last one and open, nothing was changed and the walk goes on
/// at the same level.
pub proof fn lemma_enter_labels(
    st: WalkView,
    cuts: Seq<CutView>,
    v: usize,
    inputs: Seq<usize>,
    outputs: Seq<usize>,
)
    requires
        chained(st, inputs, outputs),
        enter(st, cuts, v).is_ok(),
        pending_ok(st, outputs),
    ensures
        ({
            let s1 = enter(st, cuts, v)->Ok_0.0;
            let below = enter(st, cuts, v)->Ok_0.1;
            &&& pending_ok(s1, outputs)
            &&& grows(st.table, s1.table)
            &&& s1.level == st.level
            &&& s1.used == st.used
            &&& last_open(s1.table) && at_last(s1) ==> below == s1.level && s1 == st
        }),
{
    lemma_current_place(st, inputs, outputs);
    let ci = st.current()->Some_0;
    let h = first_cut(cuts, v, 0);
    let s1 = enter(st, cuts, v)->Ok_0.0;
    if h < cuts.len() && st.table.items[ci].barriers.len() == 0 {
        let cut = cuts[h as int];
        let n = st.table.items.len();
        assert(ci + 1 == n) by {
            if ci + 1 < n {
                assert(st.table.items[ci].barriers.len() > 0);
            }
        }
        crate::levels::lemma_first_cut(cuts, v, 0);
        assert(cut.ports.contains(v));
        let t1 = st.table.close_at(ci, cut.ports);
        assert(!t1.has(cut.key));
        assert(s1.table.items == t1.items.push(crate::stage::fresh_stage(cut.ports)));
        assert(last_body(s1.table).len() == 0);
        assert forall|i: int, x: usize|
            0 <= i < st.table.items.len() && #[trigger] st.table.items[i].body.contains(
                x,
            ) implies s1.table.items[i].body.contains(x) by {}
        assert forall|i: int|
            0 <= i < st.table.items.len() && st.table.items[i].barriers.len() > 0 implies (
        #[trigger] s1.table.items[i]).barriers.len() > 0 by {}
    }
}

/// A node that is not done joins the current stage.
pub proof fn lemma_join_labels(s1: WalkView, i: int, v: usize, outputs: Seq<usize>)
    requires
        0 <= i < s1.table.items.len(),
        i == s1.level,
        s1.table.wf(),
        apart(s1.table.join_at(i, v)),
        !s1.used.contains(v),
        pending_ok(s1, outputs),
    ensures
        pending_ok(s1.with_table(s1.table.join_at(i, v)), outputs),
        grows(s1.table, s1.table.join_at(i, v)),
{
    let s2 = s1.with_table(s1.table.join_at(i, v));
    let l = s1.table.items.len() - 1;
    let b = s1.table.items[i].body;
    assert forall|j: int, x: usize|
        0 <= j < s1.table.items.len() && #[trigger] s1.table.items[j].body.contains(
            x,
        ) implies s2.table.items[j].body.contains(x) by {
        if j == i {
            crate::levels::lemma_push_contains(b, v, x);
        }
    }
    assert(s2.table.items[i].body.contains(v)) by {
        crate::levels::lemma_push_contains(b, v, v);
    }
    assert forall|x: usize|
        last_open(s2.table) && outputs.contains(x) && #[trigger] last_body(s2.table).contains(
            x,
        ) implies !s2.used.contains(x) by {
        if x != v {
            if i == l {
                crate::levels::lemma_push_contains(b, v, x);
            }
            assert(last_body(s1.table).contains(x));
        }
    }
    assert forall|x: usize| #[trigger] waits(s2, x) implies at_last(s2) by {
        if x == v {
            if i != l {
                assert(s2.table.items[i].body.contains(v));
                assert(!s2.table.items[l].body.contains(v));
            }
        } else {
            if i == l {
                crate::levels::lemma_push_contains(b, v, x);
            }
            assert(waits(s1, x));
        }
    }
}

/// Leaving a node: an output that waits in the last stage closes it.
pub proof fn lemma_leave_labels(s: WalkView, outputs: Seq<usize>, v: usize, inputs: Seq<usize>)
    requires
        chained(s, inputs, outputs),
        leave(s, outputs, v).is_some(),
        pending_ok(s, outputs),
    ensures
        pending_ok(leave(s, outputs, v)->Some_0, outputs),
        grows(s.table, leave(s, outputs, v)->Some_0.table),
        leave(s, outputs, v)->Some_0.level == s.level,
        leave(s, outputs, v)->Some_0.used == s.used.push(v),
{
    lemma_current_place(s, inputs, outputs);
    let r = leave(s, outputs, v)->Some_0;
    let n = s.table.items.len();
    let closes = outputs.contains(v) && s.table.items[s.current()->Some_0].barriers.len() == 0;
    if closes {
        let i = s.current()->Some_0;
        assert(i + 1 == n) by {
            if i + 1 < n {
                assert(s.table.items[i].barriers.len() > 0);
            }
        }
        assert(outputs.len() > 0);
        assert(!last_open(r.table));
        assert forall|j: int, x: usize|
            0 <= j < s.table.items.len() && #[trigger] s.table.items[j].body.contains(
                x,
            ) implies r.table.items[j].body.contains(x) by {}
        assert forall|j: int|
            0 <= j < s.table.items.len() && s.table.items[j].barriers.len() > 0 implies (
        #[trigger] r.table.items[j]).barriers.len() > 0 by {}
    } else {
        assert(r.table == s.table);
        assert forall|x: usize|
            last_open(r.table) && outputs.contains(x) && #[trigger] last_body(r.table).contains(
                x,
            ) implies !r.used.contains(x) by {
            crate::levels::lemma_push_contains(s.used, v, x);
            if x == v {
                if !s.used.contains(v) {
                    assert(waits(s, v));
                }
            }
        }
        assert forall|x: usize| #[trigger] waits(r, x) implies at_last(r) by {
            crate::levels::lemma_push_contains(s.used, v, x);
            assert(waits(s, x));
        }
    }
}

/// One step of the walk among the edges out of `v`: the state in which
/// the walk through the child begins, and the state it leaves.
pub proof fn lemma_edge_step(
    edges: Seq<NodeData>,
    bound: nat,
    cuts: Seq<CutView>,
    exprs: Seq<usize>,
    outputs: Seq<usize>,
    v: usize,
    below: usize,
    i: nat,
    s2: WalkView,
    s: WalkView,
    inputs: Seq<usize>,
)
    requires
        sound_walk(s, inputs, outputs, (usize::MAX + 1) as nat),
        bound <= usize::MAX + 1,
        step_ok(s, v, edges, bound),
        follows(s2, s),
        i < edges.len(),
        edges[i as int].mom == v,
        v < edges[i as int].child < bound,
        forall|j: int|
            0 <= j < i && (#[trigger] edges[j]).mom == v && v < edges[j].child < bound
                ==> s.used.contains(edges[j].child),
    ensures
        sound_walk(s.with_level(below), inputs, outputs, (usize::MAX + 1) as nat),
        tidy(s.with_level(below), edges, bound),
        done_or_below(s.with_level(below), edges[i as int].child),
        match walk(edges, bound, cuts, exprs, outputs, edges[i as int].child, s.with_level(below)) {
            Ok(n) => {
                &&& sound_walk(n, inputs, outputs, (usize::MAX + 1) as nat)
                &&& step_ok(n, v, edges, bound)
                &&& follows(s2, n)
                &&& follows(s.with_level(below), n)
                &&& forall|j: int|
                    0 <= j < i + 1 && (#[trigger] edges[j]).mom == v && v < edges[j].child < bound
                        ==> n.used.contains(edges[j].child)
            },
            Err(_) => true,
        },
{
    let lim = (usize::MAX + 1) as nat;
    let e = edges[i as int];
    let s0 = s.with_level(below);
    assert(done_or_below(s0, e.child));
    assert(tidy(s0, edges, bound));
    lemma_walk_sound(edges, bound, cuts, exprs, outputs, e.child, s0, inputs, lim);
    lemma_walk_tidy(edges, bound, cuts, exprs, outputs, e.child, s0, inputs);
    match walk(edges, bound, cuts, exprs, outputs, e.child, s0) {
        Err(_) => {},
        Ok(n) => {
            assert forall|x: usize| s2.used.contains(x) implies #[trigger] n.used.contains(x) by {
                assert(s.used.contains(x));
            }
            assert forall|x: usize| in_body(s2.table, x) implies #[trigger] in_body(n.table, x) by {
                assert(in_body(s.table, x));
            }
            assert forall|x: usize| #[trigger] in_body(n.table, x) implies n.used.contains(x)
                || in_body(s2.table, x) by {
                if !n.used.contains(x) {
                    assert(in_body(s0.table, x));
                    assert(in_body(s.table, x));
                    assert(!s.used.contains(x));
                }
            }
            assert forall|x: usize| #[trigger] in_body(n.table, x) implies n.used.contains(x) || x
                <= v by {
                if !n.used.contains(x) {
                    assert(in_body(s0.table, x));
                    assert(in_body(s.table, x));
                    assert(!s.used.contains(x));
                }
            }
            assert forall|j: int|
                0 <= j < i + 1 && (#[trigger] edges[j]).mom == v && v < edges[j].child
                    < bound implies n.used.contains(edges[j].child) by {
                if j < i {
                    assert(s.used.contains(edges[j].child));
                }
            }
        },
    }
}

/// The walk through a node keeps the outputs of the open last stage
/// waiting, and the walk at the level of the last stage while a node waits.
pub proof fn lemma_walk_labels(
    edges: Seq<NodeData>,
    bound: nat,
    cuts: Seq<CutView>,
    exprs: Seq<usize>,
    outputs: Seq<usize>,
    v: usize,
    st: WalkView,
    inputs: Seq<usize>,
)
    requires
        sound_walk(st, inputs, outputs, (usize::MAX + 1) as nat),
        bound <= usize::MAX + 1,
        tidy(st, edges, bound),
        done_or_below(st, v),
        pending_ok(st, outputs),
    ensures
        match walk(edges, bound, cuts, exprs, outputs, v, st) {
            Ok(r) => pending_ok(r, outputs) && after(st, r, v),
            Err(_) => true,
        },
    decreases bound - v, edges.len() + 1,
{
    let lim = (usize::MAX + 1) as nat;
    if exprs.contains(v) {
        match enter(st, cuts, v) {
            Err(_) => {},
            Ok((s1, below)) => {
                lemma_enter_sound(st, cuts, v, inputs, outputs, lim);
                lemma_enter_bodies(st, cuts, v, inputs, outputs);
                lemma_enter_labels(st, cuts, v, inputs, outputs);
                lemma_current_place(s1, inputs, outputs);
                if s1.used.contains(v) {
                    if leave(s1, outputs, v).is_some() {
                        let r = leave(s1, outputs, v)->Some_0;
                        lemma_leave_labels(s1, outputs, v, inputs);
                        lemma_grows_trans(st.table, s1.table, r.table);
                        assert forall|x: usize| #[trigger] r.used.contains(x) implies st.used.contains(
                            x,
                        ) || x >= v by {
                            crate::levels::lemma_push_contains(s1.used, v, x);
                        }
                    }
                } else {
                    match s1.current() {
                        None => {},
                        Some(i) => {
                            assert(!in_body(s1.table, v)) by {
                                if in_body(s1.table, v) {
                                    assert(in_body(st.table, v));
                                }
                            }
                            lemma_join_below(s1.table, i, v, lim);
                            lemma_join_apart(s1.table, i, v);
                            let s2 = s1.with_table(s1.table.join_at(i, v));
                            lemma_join_chained(s1, i, v, inputs, outputs);
                            lemma_begin_edges(st, s1, s2, v, edges, bound);
                            lemma_join_labels(s1, i, v, outputs);
                            assert forall|x: usize| #[trigger] waits(s2, x) implies below
                                == s2.table.items.len() - 1 by {
                                assert(at_last(s2));
                                assert(last_open(s1.table));
                            }
                            lemma_walk_edges_tidy(
                                edges,
                                bound,
                                cuts,
                                exprs,
                                outputs,
                                v,
                                below,
                                0,
                                s2,
                                s2,
                                inputs,
                            );
                            lemma_walk_edges_labels(
                                edges,
                                bound,
                                cuts,
                                exprs,
                                outputs,
                                v,
                                below,
                                0,
                                s2,
                                s2,
                                inputs,
                            );
                            match walk_edges(edges, bound, cuts, exprs, outputs, v, below, 0, Ok(s2)) {
                                Err(_) => {},
                                Ok(s3) => {
                                    if leave(s3, outputs, v).is_some() {
                                        let r = leave(s3, outputs, v)->Some_0;
                                        lemma_leave_labels(s3, outputs, v, inputs);
                                        lemma_grows_trans(st.table, s1.table, s2.table);
                                        lemma_grows_trans(st.table, s2.table, s3.table);
                                        lemma_grows_trans(st.table, s3.table, r.table);
                                        assert forall|x: usize| #[trigger]
                                            r.used.contains(x) implies st.used.contains(x) || x
                                            >= v by {
                                            crate::levels::lemma_push_contains(s3.used, v, x);
                                        }
                                        if last_open(r.table) && r.table.items.len()
                                            == st.table.items.len() && at_last(st) {
                                            let l = st.table.items.len() - 1;
                                            lemma_grows_trans(s2.table, s3.table, r.table);
                                            lemma_grows_trans(s1.table, s2.table, r.table);
                                            if s1.table.items[l].barriers.len() > 0 {
                                                assert(r.table.items[l].barriers.len() > 0);
                                            }
                                            if s3.table.items[l].barriers.len() > 0 {
                                                assert(r.table.items[l].barriers.len() > 0);
                                            }
                                            assert(last_open(s1.table) && at_last(s1));
                                            assert(below == s1.level);
                                            assert(at_last(s2));
                                            assert(at_last(s3));
                                        }
                                    }
                                },
                            }
                        },
                    }
                }
            },
        }
    }
}

/// The walk along the edges out of a node keeps the outputs of the open
/// last stage waiting, and the walk at the level of the last stage while a
/// node waits.
pub proof fn lemma_walk_edges_labels(
    edges: Seq<NodeData>,
    bound: nat,
    cuts: Seq<CutView>,
    exprs: Seq<usize>,
    outputs: Seq<usize>,
    v: usize,
    below: usize,
    i: nat,
    s2: WalkView,
    s: WalkView,
    inputs: Seq<usize>,
)
    requires
        sound_walk(s, inputs, outputs, (usize::MAX + 1) as nat),
        bound <= usize::MAX + 1,
        step_ok(s, v, edges, bound),
        follows(s2, s),
        i <= edges.len(),
        forall|j: int|
            0 <= j < i && (#[trigger] edges[j]).mom == v && v < edges[j].child < bound
                ==> s.used.contains(edges[j].child),
        pending_ok(s, outputs),
        forall|x: usize| #[trigger] waits(s, x) ==> below == s.table.items.len() - 1,
    ensures
        match walk_edges(edges, bound, cuts, exprs, outputs, v, below, i, Ok(s)) {
            Ok(r) => {
                &&& pending_ok(r, outputs)
                &&& grows(s.table, r.table)
                &&& forall|x: usize| #[trigger] r.used.contains(x) ==> s.used.contains(x) || x > v
                &&& last_open(r.table) && r.table.items.len() == s.table.items.len() && at_last(s)
                    && below == s.table.items.len() - 1 ==> at_last(r)
            },
            Err(_) => true,
        },
    decreases bound - v, edges.len() - i,
{
    if i < edges.len() {
        let e = edges[i as int];
        if e.mom == v && v < e.child < bound {
            let s0 = s.with_level(below);
            lemma_edge_step(edges, bound, cuts, exprs, outputs, v, below, i, s2, s, inputs);
            assert(pending_ok(s0, outputs)) by {
                assert forall|x: usize| #[trigger] waits(s0, x) implies at_last(s0) by {
                    assert(waits(s, x));
                }
            }
            lemma_walk_labels(edges, bound, cuts, exprs, outputs, e.child, s0, inputs);
            match walk(edges, bound, cuts, exprs, outputs, e.child, s0) {
                Err(w) => {
                    crate::analysis_shape::lemma_edges_err(
                        edges,
                        bound,
                        cuts,
                        exprs,
                        outputs,
                        v,
                        below,
                        i + 1,
                        Err(w),
                    );
                },
                Ok(n) => {
                    assert forall|x: usize| #[trigger] waits(n, x) implies below
                        == n.table.items.len() - 1 by {
                        lemma_waits_back(s0, n, x);
                        assert(waits(s, x));
                    }
                    lemma_walk_edges_labels(
                        edges,
                        bound,
                        cuts,
                        exprs,
                        outputs,
                        v,
                        below,
                        i + 1,
                        s2,
                        n,
                        inputs,
                    );
                    match walk_edges(edges, bound, cuts, exprs, outputs, v, below, i + 1, Ok(n)) {
                        Err(_) => {},
                        Ok(r) => {
                            lemma_grows_trans(s.table, n.table, r.table);
                            assert forall|x: usize| #[trigger] r.used.contains(x) implies s.used.contains(
                                x,
                            ) || x > v by {
                                if n.used.contains(x) {
                                    assert(s0.used.contains(x) || x >= e.child);
                                }
                            }
                            if last_open(r.table) && r.table.items.len() == s.table.items.len()
                                && at_last(s) && below == s.table.items.len() - 1 {
                                let l = s.table.items.len() - 1;
                                if n.table.items[l].barriers.len() > 0 {
                                    assert(r.table.items[l].barriers.len() > 0);
                                }
                                assert(at_last(s0));
                                assert(at_last(n));
                            }
                        },
                    }
                },
            }
        } else {
            lemma_walk_edges_labels(edges, bound, cuts, exprs, outputs, v, below, i + 1, s2, s, inputs);
        }
    } else {
        assert forall|i: int, x: usize|
            0 <= i < s.table.items.len() && #[trigger] s.table.items[i].body.contains(
                x,
            ) implies s.table.items[i].body.contains(x) by {}
    }
}

/// The walk from the inputs keeps the outputs of the open last stage
/// waiting.
pub proof fn lemma_walk_inputs_labels(
    edges: Seq<NodeData>,
    bound: nat,
    cuts: Seq<CutView>,
    exprs: Seq<usize>,
    inputs: Seq<usize>,
    outputs: Seq<usize>,
    st: WalkView,
    n: nat,
)
    requires
        sound_walk(st, inputs, outputs, (usize::MAX + 1) as nat),
        bound <= usize::MAX + 1,
        tidy(st, edges, bound),
        forall|x: usize| #[trigger] in_body(st.table, x) ==> st.used.contains(x),
        pending_ok(st, outputs),
        n <= inputs.len(),
    ensures
        match walk_inputs(edges, bound, cuts, exprs, inputs, outputs, st, n) {
            Ok(r) => pending_ok(r, outputs),
            Err(_) => true,
        },
    decreases n,
{
    let lim = (usize::MAX + 1) as nat;
    if n > 0 {
        lemma_walk_inputs_labels(edges, bound, cuts, exprs, inputs, outputs, st, (n - 1) as nat);
        lemma_walk_inputs_tidy(edges, bound, cuts, exprs, inputs, outputs, st, (n - 1) as nat);
        assert forall|i: int| 0 <= i < inputs.len() implies (#[trigger] inputs[i]) < lim by {}
        lemma_walk_inputs_sound(edges, bound, cuts, exprs, inputs, outputs, st, (n - 1) as nat, lim);
        match walk_inputs(edges, bound, cuts, exprs, inputs, outputs, st, (n - 1) as nat) {
            Err(_) => {},
            Ok(s) => {
                let p = inputs[n - 1];
                let s0 = seeded(s, inputs, p);
                if s.table.keys.len() == 0 {
                    lemma_put_below(s.table, p, fresh_stage(inputs), lim);
                    assert(!s.table.keys.contains(p));
                    assert(s0.table.keys =~= seq![p]);
                    assert(s0.table.items =~= seq![fresh_stage(inputs)]);
                    assert(s0.order =~= seq![p]);
                    assert(last_body(s0.table).len() == 0);
                }
                lemma_same_bodies(s.table, s0.table);
                assert(sound_walk(s0, inputs, outputs, lim));
                assert(tidy(s0, edges, bound)) by {
                    assert forall|x: usize| s0.used.contains(x) implies #[trigger] in_body(
                        s0.table,
                        x,
                    ) by {
                        assert(in_body(s.table, x));
                    }
                }
                assert(done_or_below(s0, p)) by {
                    assert forall|x: usize| #[trigger] in_body(s0.table, x) implies s0.used.contains(
                        x,
                    ) || x < p by {
                        assert(in_body(s.table, x));
                    }
                }
                assert(pending_ok(s0, outputs)) by {
                    assert forall|x: usize| #[trigger] waits(s0, x) implies at_last(s0) by {
                        if s.table.keys.len() > 0 {
                            assert(s0.table.items[s0.table.items.len() - 1].body.contains(x));
                            assert(in_body(s0.table, x));
                            assert(in_body(s.table, x));
                        }
                    }
                }
                lemma_walk_labels(edges, bound, cuts, exprs, outputs, p, s0, inputs);
            },
        }
    }
}

/// The label of the last stage. Where the walk of a graph without stages
/// leaves an output of the module in the body of the stage at the last
/// level, what leaves that stage is the module's outputs.
pub proof fn law_last_stage_labelled(g: GraphView, sv: SysView, w: WalkView, x: usize)
    requires
        sv.nodes.len() <= usize::MAX,
        g.table.keys.len() == 0,
        g.table.items.len() == 0,
        g.order.len() == 0,
        g.submodules(sv) == Ok::<WalkView, WalkFailure>(w),
        w.order.len() >= 1,
        g.outputs.contains(x),
        w.table.get(w.order[w.order.len() - 1]).body.contains(x),
    ensures
        w.table.get(w.order[w.order.len() - 1]).barriers == g.outputs,
{
    let lim = (usize::MAX + 1) as nat;
    let st = g.walk_start();
    assert(st.order =~= st.table.keys);
    assert(sound_walk(st, g.inputs, g.outputs, lim));
    assert(tidy(st, g.edges, sv.len()));
    assert(pending_ok(st, g.outputs));
    let n = g.inputs.len();
    lemma_walk_inputs_sound(g.edges, sv.len(), g.cuts, g.exprs, g.inputs, g.outputs, st, n, lim);
    lemma_walk_inputs_tidy(g.edges, sv.len(), g.cuts, g.exprs, g.inputs, g.outputs, st, n);
    lemma_walk_inputs_labels(g.edges, sv.len(), g.cuts, g.exprs, g.inputs, g.outputs, st, n);
    let l = w.order.len() - 1;
    w.table.lemma_find_place(l);
    assert(last_body(w.table).contains(x));
    assert(in_body(w.table, x));
    assert(w.used.contains(x));
}

} // verus!
