//! What the analysis of a module leaves in its container: keys of the
//! module's system only, and every barrier marker of the module's body.

use crate::discovery::{analysis, discover, is_flagged};
use crate::error::PassError;
use crate::graph::GraphView;
use crate::ir::{barrier_opcode, SysView};
use crate::keys::lemma_first_at;
use crate::emission::{cut, rewrite_module, Failure, OutcomeView};
use crate::laws::{all_within, cut_before, law_every_module, records_barriers, rewritten};
use crate::levels::{CutView, NodeData};
use crate::levels_shape::container_within;
use crate::shape::all_below;
use crate::stage::{fresh_stage, ContainerView, StageView, TableView};
use crate::staging::{
    enter, leave, no_stage, seeded, walk, walk_edges, walk_inputs, WalkFailure, WalkView,
};
use vstd::prelude::*;

verus! {

/// The table is consistent and the bodies of its stages hold keys below `lim` only.
pub open spec fn table_below(t: TableView, lim: nat) -> bool {
    &&& t.wf()
    &&& forall|i: int| 0 <= i < t.items.len() ==> all_below(#[trigger] t.items[i].body, lim)
}

/// A stage put into the table, with a body below `lim`, keeps the table below `lim`.
pub proof fn lemma_put_below(t: TableView, k: usize, s: StageView, lim: nat)
    requires
        table_below(t, lim),
        all_below(s.body, lim),
    ensures
        table_below(t.put(k, s), lim),
{
    lemma_first_at(t.keys, k);
    t.lemma_put_wf(k, s);
    let u = t.put(k, s);
    assert forall|i: int| 0 <= i < u.items.len() implies all_below(#[trigger] u.items[i].body, lim) by {
        if t.has(k) {
            if i != t.find(k) {
                assert(u.items[i] == t.items[i]);
            }
        } else if i < t.items.len() {
            assert(u.items[i] == t.items[i]);
        }
    }
}

/// Closing a stage keeps the table below `lim`.
pub proof fn lemma_close_below(t: TableView, i: int, barriers: Seq<usize>, lim: nat)
    requires
        table_below(t, lim),
        0 <= i < t.items.len(),
    ensures
        table_below(t.close_at(i, barriers), lim),
{
    let u = t.close_at(i, barriers);
    assert forall|j: int| 0 <= j < u.items.len() implies all_below(#[trigger] u.items[j].body, lim) by {
        assert(all_below(t.items[j].body, lim));
    }
}

/// A key below `lim` that joins a stage keeps the table below `lim`.
pub proof fn lemma_join_below(t: TableView, i: int, v: usize, lim: nat)
    requires
        table_below(t, lim),
        0 <= i < t.items.len(),
        v < lim,
    ensures
        table_below(t.join_at(i, v), lim),
{
    let u = t.join_at(i, v);
    assert forall|j: int| 0 <= j < u.items.len() implies all_below(#[trigger] u.items[j].body, lim) by {
        assert(all_below(t.items[j].body, lim));
    }
}

/// The stages form a chain: the stage of each level stands in the table
/// at the place of the level, under the key that the order gives, the stage
/// at level 0 has the first of `inputs` as its key and reads `inputs`,
/// what leaves the stage of a level is what the
/// stage of the next level reads, and the stage of the last level is open
/// or labelled with `outputs`.
pub open spec fn chained(st: WalkView, inputs: Seq<usize>, outputs: Seq<usize>) -> bool {
    &&& st.table.wf()
    &&& st.order == st.table.keys
    &&& st.table.items.len() >= 1 ==> inputs.len() >= 1 && st.table.keys[0] == inputs[0]
    &&& st.table.items.len() >= 1 ==> st.table.items[0].ports == inputs
    &&& st.table.items.len() >= 1 ==> st.table.items[st.table.items.len() - 1].barriers.len() == 0
        || st.table.items[st.table.items.len() - 1].barriers == outputs
    &&& forall|i: int|
        0 <= i && i + 1 < st.table.items.len() ==> (#[trigger] st.table.items[i]).barriers
            == st.table.items[i + 1].ports && st.table.items[i].barriers.len() > 0
}

/// The stage `s` under the key `key` is the stage of one of the cuts: it
/// has the cut's key and reads the cut's values.
pub open spec fn opened_by(cuts: Seq<CutView>, key: usize, s: StageView) -> bool {
    exists|h: int| 0 <= h < cuts.len() && (#[trigger] cuts[h]).key == key && s.ports == cuts[h].ports
}

/// Every stage but the first is the stage of one of the cuts.
pub open spec fn keyed(t: TableView, cuts: Seq<CutView>) -> bool {
    forall|i: int| 1 <= i < t.keys.len() ==> opened_by(cuts, #[trigger] t.keys[i], t.items[i])
}

/// A table with the same keys and the same ports is keyed as the other is.
pub proof fn lemma_keyed_same(t: TableView, u: TableView, cuts: Seq<CutView>)
    requires
        keyed(t, cuts),
        u.keys == t.keys,
        t.wf(),
        u.wf(),
        forall|j: int| 0 <= j < t.items.len() ==> (#[trigger] u.items[j]).ports == t.items[j].ports,
    ensures
        keyed(u, cuts),
{
    assert forall|i: int| 1 <= i < u.keys.len() implies opened_by(
        cuts,
        #[trigger] u.keys[i],
        u.items[i],
    ) by {
        assert(opened_by(cuts, t.keys[i], t.items[i]));
        let h = choose|h: int|
            0 <= h < cuts.len() && (#[trigger] cuts[h]).key == t.keys[i] && t.items[i].ports
                == cuts[h].ports;
        assert(u.items[i].ports == cuts[h].ports);
    }
}

/// The state of a walk is sound: its stages form a chain and hold keys
/// below `lim` only.
pub open spec fn sound_walk(
    st: WalkView,
    inputs: Seq<usize>,
    outputs: Seq<usize>,
    lim: nat,
) -> bool {
    table_below(st.table, lim) && chained(st, inputs, outputs)
}

/// The place of the current stage is the current level.
pub proof fn lemma_current_place(st: WalkView, inputs: Seq<usize>, outputs: Seq<usize>)
    requires
        chained(st, inputs, outputs),
    ensures
        match st.current() {
            Some(i) => i == st.level && 0 <= i < st.table.items.len(),
            None => true,
        },
{
    if st.level < st.order.len() {
        st.table.lemma_find_place(st.level as int);
    }
}

/// Reaching a node keeps the state sound.
pub proof fn lemma_enter_sound(
    st: WalkView,
    cuts: Seq<CutView>,
    v: usize,
    inputs: Seq<usize>,
    outputs: Seq<usize>,
    lim: nat,
)
    requires
        sound_walk(st, inputs, outputs, lim),
        enter(st, cuts, v).is_ok(),
    ensures
        sound_walk(enter(st, cuts, v)->Ok_0.0, inputs, outputs, lim),
        enter(st, cuts, v)->Ok_0.0.table.keys.len() >= st.table.keys.len(),
        keyed(st.table, cuts) ==> keyed(enter(st, cuts, v)->Ok_0.0.table, cuts),
{
    lemma_current_place(st, inputs, outputs);
    let ci = st.current()->Some_0;
    let h = crate::levels::first_cut(cuts, v, 0);
    let s1 = enter(st, cuts, v)->Ok_0.0;
    if h < cuts.len() && st.table.items[ci].barriers.len() == 0 {
        let cut = cuts[h as int];
        let n = st.table.items.len();
        crate::levels::lemma_first_cut(cuts, v, 0);
        assert(cut.ports.contains(v));
        // an open stage is the last one
        assert(ci + 1 == n) by {
            if ci + 1 < n {
                assert(st.table.items[ci].barriers.len() > 0);
            }
        }
        let up = (st.level + 1) as usize;
        assert(up == n);
        let t1 = st.table.close_at(ci, cut.ports);
        lemma_close_below(st.table, ci, cut.ports, lim);
        lemma_put_below(t1, cut.key, fresh_stage(cut.ports), lim);
        assert(!t1.has(cut.key));
        assert(s1.table.keys == t1.keys.push(cut.key));
        assert(s1.table.items == t1.items.push(fresh_stage(cut.ports)));
        assert(s1.order == st.order.push(cut.key));
        assert forall|i: int| 0 <= i && i + 1 < s1.table.items.len() implies (
        #[trigger] s1.table.items[i]).barriers == s1.table.items[i + 1].ports
            && s1.table.items[i].barriers.len() > 0 by {
            if i + 1 < n {
                assert(st.table.items[i].barriers == st.table.items[i + 1].ports);
            }
        }
        if keyed(st.table, cuts) {
            lemma_keyed_same(st.table, t1, cuts);
            assert forall|i: int| 1 <= i < s1.table.keys.len() implies opened_by(
                cuts,
                #[trigger] s1.table.keys[i],
                s1.table.items[i],
            ) by {
                if i < n {
                    assert(opened_by(cuts, t1.keys[i], t1.items[i]));
                    assert(s1.table.items[i] == t1.items[i]);
                } else {
                    assert(cuts[h as int].key == s1.table.keys[i]);
                }
            }
        }
    }
}

/// Leaving a node keeps the state sound.
pub proof fn lemma_leave_sound(
    st: WalkView,
    outputs: Seq<usize>,
    v: usize,
    inputs: Seq<usize>,
    lim: nat,
)
    requires
        sound_walk(st, inputs, outputs, lim),
        leave(st, outputs, v).is_some(),
    ensures
        sound_walk(leave(st, outputs, v)->Some_0, inputs, outputs, lim),
        leave(st, outputs, v)->Some_0.table.keys == st.table.keys,
        forall|j: int|
            0 <= j < st.table.items.len() ==> (#[trigger] leave(
                st,
                outputs,
                v,
            )->Some_0.table.items[j]).ports == st.table.items[j].ports,
{
    lemma_current_place(st, inputs, outputs);
    if outputs.contains(v) {
        let i = st.current()->Some_0;
        let n = st.table.items.len();
        if st.table.items[i].barriers.len() == 0 {
            assert(i + 1 == n) by {
                if i + 1 < n {
                    assert(st.table.items[i].barriers.len() > 0);
                }
            }
            lemma_close_below(st.table, i, outputs, lim);
            let s = leave(st, outputs, v)->Some_0;
            assert forall|j: int| 0 <= j && j + 1 < s.table.items.len() implies (
            #[trigger] s.table.items[j]).barriers == s.table.items[j + 1].ports
                && s.table.items[j].barriers.len() > 0 by {
                assert(st.table.items[j].barriers == st.table.items[j + 1].ports);
            }
        }
    }
}

/// The walk through a node below `lim` keeps the state sound.
pub proof fn lemma_walk_sound(
    edges: Seq<NodeData>,
    bound: nat,
    cuts: Seq<CutView>,
    exprs: Seq<usize>,
    outputs: Seq<usize>,
    v: usize,
    st: WalkView,
    inputs: Seq<usize>,
    lim: nat,
)
    requires
        sound_walk(st, inputs, outputs, lim),
        bound <= lim,
        v < lim,
    ensures
        match walk(edges, bound, cuts, exprs, outputs, v, st) {
            Ok(r) => sound_walk(r, inputs, outputs, lim) && r.table.keys.len()
                >= st.table.keys.len() && (keyed(st.table, cuts) ==> keyed(r.table, cuts)),
            Err(_) => true,
        },
    decreases bound - v, edges.len() + 1,
{
    if exprs.contains(v) {
        match enter(st, cuts, v) {
            Err(_) => {},
            Ok((s1, below)) => {
                lemma_enter_sound(st, cuts, v, inputs, outputs, lim);
                lemma_current_place(s1, inputs, outputs);
                let after = if s1.used.contains(v) {
                    Ok::<WalkView, WalkFailure>(s1)
                } else {
                    match s1.current() {
                        None => Err::<WalkView, WalkFailure>(no_stage(s1)),
                        Some(i) => {
                            lemma_join_below(s1.table, i, v, lim);
                            let s2 = s1.with_table(s1.table.join_at(i, v));
                            if keyed(s1.table, cuts) {
                                lemma_keyed_same(s1.table, s2.table, cuts);
                            }
                            assert(chained(s2, inputs, outputs)) by {
                                assert forall|j: int|
                                    0 <= j && j + 1 < s2.table.items.len() implies (
                                #[trigger] s2.table.items[j]).barriers == s2.table.items[j
                                    + 1].ports && s2.table.items[j].barriers.len() > 0 by {
                                    assert(s1.table.items[j].barriers == s1.table.items[j
                                        + 1].ports);
                                }
                            }
                            lemma_walk_edges_sound(
                                edges,
                                bound,
                                cuts,
                                exprs,
                                outputs,
                                v,
                                below,
                                0,
                                Ok(s2),
                                inputs,
                                lim,
                            );
                            walk_edges(edges, bound, cuts, exprs, outputs, v, below, 0, Ok(s2))
                        },
                    }
                };
                match after {
                    Err(_) => {},
                    Ok(s2) => {
                        if leave(s2, outputs, v).is_some() {
                            lemma_leave_sound(s2, outputs, v, inputs, lim);
                            if keyed(s2.table, cuts) {
                                lemma_keyed_same(
                                    s2.table,
                                    leave(s2, outputs, v)->Some_0.table,
                                    cuts,
                                );
                            }
                        }
                    },
                }
            },
        }
    }
}

/// The walk along the edges out of a node keeps the state sound.
pub proof fn lemma_walk_edges_sound(
    edges: Seq<NodeData>,
    bound: nat,
    cuts: Seq<CutView>,
    exprs: Seq<usize>,
    outputs: Seq<usize>,
    v: usize,
    below: usize,
    i: nat,
    st: Result<WalkView, WalkFailure>,
    inputs: Seq<usize>,
    lim: nat,
)
    requires
        match st {
            Ok(s) => sound_walk(s, inputs, outputs, lim),
            Err(_) => true,
        },
        bound <= lim,
    ensures
        match (st, walk_edges(edges, bound, cuts, exprs, outputs, v, below, i, st)) {
            (Ok(s), Ok(r)) => sound_walk(r, inputs, outputs, lim) && r.table.keys.len()
                >= s.table.keys.len() && (keyed(s.table, cuts) ==> keyed(r.table, cuts)),
            _ => true,
        },
    decreases bound - v, edges.len() - i,
{
    if i < edges.len() {
        match st {
            Err(_) => {},
            Ok(s) => {
                let e = edges[i as int];
                let next = if e.mom == v && v < e.child < bound {
                    lemma_walk_sound(
                        edges,
                        bound,
                        cuts,
                        exprs,
                        outputs,
                        e.child,
                        s.with_level(below),
                        inputs,
                        lim,
                    );
                    walk(edges, bound, cuts, exprs, outputs, e.child, s.with_level(below))
                } else {
                    Ok(s)
                };
                lemma_walk_edges_sound(
                    edges,
                    bound,
                    cuts,
                    exprs,
                    outputs,
                    v,
                    below,
                    i + 1,
                    next,
                    inputs,
                    lim,
                );
                if next.is_err() {
                    lemma_edges_err(edges, bound, cuts, exprs, outputs, v, below, i + 1, next);
                }
            },
        }
    }
}

/// Once the walk has failed it stays failed.
pub proof fn lemma_edges_err(
    edges: Seq<NodeData>,
    bound: nat,
    cuts: Seq<CutView>,
    exprs: Seq<usize>,
    outputs: Seq<usize>,
    v: usize,
    below: usize,
    i: nat,
    st: Result<WalkView, WalkFailure>,
)
    requires
        st.is_err(),
    ensures
        walk_edges(edges, bound, cuts, exprs, outputs, v, below, i, st).is_err(),
    decreases edges.len() - i,
{
    if i < edges.len() {
        lemma_edges_err(edges, bound, cuts, exprs, outputs, v, below, i + 1, st);
    }
}

/// The walk from inputs below `lim` keeps the state sound, and has a stage
/// at level 0 once it has started.
pub proof fn lemma_walk_inputs_sound(
    edges: Seq<NodeData>,
    bound: nat,
    cuts: Seq<CutView>,
    exprs: Seq<usize>,
    inputs: Seq<usize>,
    outputs: Seq<usize>,
    st: WalkView,
    n: nat,
    lim: nat,
)
    requires
        sound_walk(st, inputs, outputs, lim),
        bound <= lim,
        all_below(inputs, lim),
        n <= inputs.len(),
    ensures
        match walk_inputs(edges, bound, cuts, exprs, inputs, outputs, st, n) {
            Ok(r) => sound_walk(r, inputs, outputs, lim) && (n >= 1 ==> r.table.keys.len() >= 1)
                && (keyed(st.table, cuts) ==> keyed(r.table, cuts)),
            Err(_) => true,
        },
    decreases n,
{
    if n > 0 {
        lemma_walk_inputs_sound(edges, bound, cuts, exprs, inputs, outputs, st, (n - 1) as nat, lim);
        match walk_inputs(edges, bound, cuts, exprs, inputs, outputs, st, (n - 1) as nat) {
            Err(_) => {},
            Ok(s) => {
                let p = inputs[n - 1];
                let s0 = seeded(s, inputs, p);
                if s.table.keys.len() == 0 {
                    lemma_put_below(s.table, p, fresh_stage(inputs), lim);
                    assert(!s.table.keys.contains(p));
                    assert(s0.table.keys =~= seq![p]);
                    assert(s0.table.items =~= seq![fresh_stage(inputs)]);
                    assert(s0.order =~= seq![p]);
                }
                assert(sound_walk(s0, inputs, outputs, lim));
                lemma_walk_sound(edges, bound, cuts, exprs, outputs, p, s0, inputs, lim);
            },
        }
    }
}

/// The key `x` is in the body of one of the stages.
pub open spec fn in_body(t: TableView, x: usize) -> bool {
    exists|i: int| 0 <= i < t.items.len() && (#[trigger] t.items[i]).body.contains(x)
}

/// No key is twice in a body, and no key is in two bodies.
pub open spec fn apart(t: TableView) -> bool {
    &&& forall|i: int| 0 <= i < t.items.len() ==> (#[trigger] t.items[i]).body.no_duplicates()
    &&& forall|i: int, j: int, x: usize|
        0 <= i < t.items.len() && 0 <= j < t.items.len() && i != j
            && #[trigger] t.items[i].body.contains(x) ==> !#[trigger] t.items[j].body.contains(x)
}

/// Every node that an edge leads to from a node that is done is done.
pub open spec fn closed(used: Seq<usize>, edges: Seq<NodeData>, bound: nat) -> bool {
    forall|j: int|
        0 <= j < edges.len() && used.contains((#[trigger] edges[j]).mom) && edges[j].mom
            < edges[j].child < bound ==> used.contains(edges[j].child)
}

/// The state of the walk is tidy: the bodies of the stages are apart, every
/// node that is done is in a body, and the nodes that are done are closed
/// under the edges.
pub open spec fn tidy(st: WalkView, edges: Seq<NodeData>, bound: nat) -> bool {
    &&& apart(st.table)
    &&& closed(st.used, edges, bound)
    &&& forall|x: usize| st.used.contains(x) ==> #[trigger] in_body(st.table, x)
}

/// Every node in a body is done or below `v`.
pub open spec fn done_or_below(st: WalkView, v: usize) -> bool {
    forall|x: usize| #[trigger] in_body(st.table, x) ==> st.used.contains(x) || x < v
}

/// The state `b` comes after the state `a`: what was done is done, what was
/// in a body is in a body, and what has come into a body since is done.
pub open spec fn follows(a: WalkView, b: WalkView) -> bool {
    &&& forall|x: usize| a.used.contains(x) ==> #[trigger] b.used.contains(x)
    &&& forall|x: usize| in_body(a.table, x) ==> #[trigger] in_body(b.table, x)
    &&& forall|x: usize| #[trigger] in_body(b.table, x) ==> b.used.contains(x) || in_body(a.table, x)
}

/// Two tables whose stages have the same bodies hold the same keys, apart
/// in one as in the other.
pub proof fn lemma_same_bodies(t: TableView, u: TableView)
    requires
        t.items.len() <= u.items.len(),
        forall|i: int| 0 <= i < t.items.len() ==> (#[trigger] u.items[i]).body == t.items[i].body,
        forall|i: int|
            t.items.len() <= i < u.items.len() ==> (#[trigger] u.items[i]).body.len() == 0,
    ensures
        forall|x: usize| in_body(t, x) <==> in_body(u, x),
        apart(t) ==> apart(u),
{
    assert forall|x: usize| in_body(t, x) <==> in_body(u, x) by {
        if in_body(t, x) {
            let i = choose|i: int| 0 <= i < t.items.len() && (#[trigger] t.items[i]).body.contains(x);
            assert(u.items[i].body.contains(x));
        }
        if in_body(u, x) {
            let i = choose|i: int| 0 <= i < u.items.len() && (#[trigger] u.items[i]).body.contains(x);
            if i < t.items.len() {
                assert(t.items[i].body.contains(x));
            }
        }
    }
    if apart(t) {
        assert forall|i: int| 0 <= i < u.items.len() implies (
        #[trigger] u.items[i]).body.no_duplicates() by {
            if i < t.items.len() {
                assert(t.items[i].body.no_duplicates());
            }
        }
        assert forall|i: int, j: int, x: usize|
            0 <= i < u.items.len() && 0 <= j < u.items.len() && i != j
                && #[trigger] u.items[i].body.contains(x) implies !#[trigger] u.items[j].body.contains(
                x,
            ) by {
            if i < t.items.len() && j < t.items.len() {
                assert(t.items[i].body.contains(x));
                assert(!t.items[j].body.contains(x));
            }
        }
    }
}

/// A key that is in no body joins one: the bodies stay apart, and hold
/// that key besides what they held.
pub proof fn lemma_join_apart(t: TableView, i: int, v: usize)
    requires
        t.wf(),
        0 <= i < t.items.len(),
        apart(t),
        !in_body(t, v),
    ensures
        apart(t.join_at(i, v)),
        forall|x: usize| in_body(t.join_at(i, v), x) <==> in_body(t, x) || x == v,
{
    let u = t.join_at(i, v);
    assert(!t.items[i].body.contains(v));
    let b = t.items[i].body;
    assert(u.items[i].body == b.push(v));
    assert forall|x: usize| in_body(u, x) <==> in_body(t, x) || x == v by {
        crate::levels::lemma_push_contains(b, v, x);
        if in_body(t, x) {
            let j = choose|j: int| 0 <= j < t.items.len() && (#[trigger] t.items[j]).body.contains(x);
            if j != i {
                assert(u.items[j] == t.items[j]);
            }
            assert(u.items[j].body.contains(x));
        }
        if x == v {
            assert(u.items[i].body.contains(x));
        }
        if in_body(u, x) {
            let j = choose|j: int| 0 <= j < u.items.len() && (#[trigger] u.items[j]).body.contains(x);
            if j != i {
                assert(t.items[j] == u.items[j]);
                assert(t.items[j].body.contains(x));
            } else if x != v {
                assert(t.items[i].body.contains(x));
            }
        }
    }
    assert forall|j: int| 0 <= j < u.items.len() implies (
    #[trigger] u.items[j]).body.no_duplicates() by {
        if j == i {
            assert(b.no_duplicates());
            assert forall|p: int, q: int|
                0 <= p < b.push(v).len() && 0 <= q < b.push(v).len() && p != q implies b.push(v)[p]
                != b.push(v)[q] by {
                if p < b.len() && q < b.len() {
                } else if p < b.len() {
                    assert(b.contains(b[p]));
                } else {
                    assert(b.contains(b[q]));
                }
            }
        } else {
            assert(u.items[j] == t.items[j]);
        }
    }
    assert forall|j: int, k: int, x: usize|
        0 <= j < u.items.len() && 0 <= k < u.items.len() && j != k
            && #[trigger] u.items[j].body.contains(x) implies !#[trigger] u.items[k].body.contains(
            x,
        ) by {
        crate::levels::lemma_push_contains(b, v, x);
        if j != i {
            assert(u.items[j] == t.items[j]);
            assert(t.items[j].body.contains(x));
        }
        if k != i {
            assert(u.items[k] == t.items[k]);
        }
        if u.items[k].body.contains(x) {
            if j == i {
                if x == v {
                    assert(t.items[k].body.contains(v));
                } else {
                    assert(t.items[i].body.contains(x));
                    assert(t.items[k].body.contains(x));
                }
            } else if k == i {
                if x == v {
                    assert(t.items[j].body.contains(v));
                } else {
                    assert(t.items[i].body.contains(x));
                }
            } else {
                assert(t.items[k].body.contains(x));
            }
        }
    }
}

/// Leaving a node that was done before keeps the state tidy.
proof fn lemma_revisit(
    st: WalkView,
    s1: WalkView,
    outputs: Seq<usize>,
    v: usize,
    inputs: Seq<usize>,
    edges: Seq<NodeData>,
    bound: nat,
)
    requires
        chained(s1, inputs, outputs),
        tidy(st, edges, bound),
        s1.used == st.used,
        forall|x: usize| in_body(st.table, x) <==> in_body(s1.table, x),
        apart(s1.table),
        s1.used.contains(v),
        leave(s1, outputs, v).is_some(),
    ensures
        tidy(leave(s1, outputs, v)->Some_0, edges, bound),
        follows(st, leave(s1, outputs, v)->Some_0),
        leave(s1, outputs, v)->Some_0.used.contains(v),
{
    let r = leave(s1, outputs, v)->Some_0;
    lemma_leave_bodies(s1, outputs, v, inputs);
    lemma_done_again(s1.used, edges, bound, v);
    assert forall|x: usize| st.used.contains(x) implies #[trigger] r.used.contains(x) by {
        crate::levels::lemma_push_contains(s1.used, v, x);
    }
    assert forall|x: usize| r.used.contains(x) implies #[trigger] in_body(r.table, x) by {
        crate::levels::lemma_push_contains(s1.used, v, x);
        assert(in_body(st.table, x));
        assert(in_body(s1.table, x));
    }
    assert forall|x: usize| in_body(st.table, x) implies #[trigger] in_body(r.table, x) by {
        assert(in_body(s1.table, x));
    }
    assert forall|x: usize| #[trigger] in_body(r.table, x) implies r.used.contains(x) || in_body(
        st.table,
        x,
    ) by {
        assert(in_body(s1.table, x));
    }
    crate::levels::lemma_push_contains(s1.used, v, v);
}

/// Leaving a node after its first visit keeps the state tidy: the node and
/// everything below it is done.
proof fn lemma_finish_visit(
    st: WalkView,
    s2: WalkView,
    s3: WalkView,
    outputs: Seq<usize>,
    v: usize,
    inputs: Seq<usize>,
    edges: Seq<NodeData>,
    bound: nat,
)
    requires
        chained(s3, inputs, outputs),
        step_ok(s3, v, edges, bound),
        follows(s2, s3),
        s2.used == st.used,
        forall|x: usize| in_body(s2.table, x) <==> in_body(st.table, x) || x == v,
        forall|j: int|
            0 <= j < edges.len() && (#[trigger] edges[j]).mom == v && v < edges[j].child < bound
                ==> s3.used.contains(edges[j].child),
        leave(s3, outputs, v).is_some(),
    ensures
        tidy(leave(s3, outputs, v)->Some_0, edges, bound),
        follows(st, leave(s3, outputs, v)->Some_0),
        leave(s3, outputs, v)->Some_0.used.contains(v),
{
    let r = leave(s3, outputs, v)->Some_0;
    lemma_leave_bodies(s3, outputs, v, inputs);
    crate::levels::lemma_push_contains(s3.used, v, v);
    assert(in_body(s2.table, v));
    assert(in_body(s3.table, v));
    assert forall|x: usize| st.used.contains(x) implies #[trigger] r.used.contains(x) by {
        assert(s3.used.contains(x));
        crate::levels::lemma_push_contains(s3.used, v, x);
    }
    assert forall|x: usize| r.used.contains(x) implies #[trigger] in_body(r.table, x) by {
        crate::levels::lemma_push_contains(s3.used, v, x);
        if x != v {
            assert(in_body(s3.table, x));
        }
    }
    assert forall|j: int|
        0 <= j < edges.len() && r.used.contains((#[trigger] edges[j]).mom) && edges[j].mom
            < edges[j].child < bound implies r.used.contains(edges[j].child) by {
        crate::levels::lemma_push_contains(s3.used, v, edges[j].mom);
        crate::levels::lemma_push_contains(s3.used, v, edges[j].child);
    }
    assert forall|x: usize| #[trigger] in_body(r.table, x) implies r.used.contains(x) || in_body(
        st.table,
        x,
    ) by {
        crate::levels::lemma_push_contains(s3.used, v, x);
        assert(in_body(s3.table, x));
        if !s3.used.contains(x) && x != v {
            assert(in_body(s2.table, x));
        }
    }
    assert forall|x: usize| in_body(st.table, x) implies #[trigger] in_body(r.table, x) by {
        assert(in_body(s2.table, x));
        assert(in_body(s3.table, x));
    }
}

/// The walk through a node keeps the state tidy, and what comes into a
/// body on the way is done when the walk is through.
#[verifier::rlimit(60)]
pub proof fn lemma_walk_tidy(
    edges: Seq<NodeData>,
    bound: nat,
    cuts: Seq<CutView>,
    exprs: Seq<usize>,
    outputs: Seq<usize>,
    v: usize,
    st: WalkView,
    inputs: Seq<usize>,
)
    requires
        sound_walk(st, inputs, outputs, (usize::MAX + 1) as nat),
        bound <= usize::MAX + 1,
        tidy(st, edges, bound),
        done_or_below(st, v),
    ensures
        match walk(edges, bound, cuts, exprs, outputs, v, st) {
            Ok(r) => tidy(r, edges, bound) && follows(st, r) && r.used.contains(v),
            Err(_) => true,
        },
    decreases bound - v, edges.len() + 1,
{
    let lim = (usize::MAX + 1) as nat;
    if exprs.contains(v) {
        match enter(st, cuts, v) {
            Err(_) => {},
            Ok((s1, below)) => {
                lemma_enter_sound(st, cuts, v, inputs, outputs, lim);
                lemma_enter_bodies(st, cuts, v, inputs, outputs);
                lemma_current_place(s1, inputs, outputs);
                if s1.used.contains(v) {
                    if leave(s1, outputs, v).is_some() {
                        lemma_revisit(st, s1, outputs, v, inputs, edges, bound);
                    }
                } else {
                    match s1.current() {
                        None => {},
                        Some(i) => {
                            assert(!in_body(s1.table, v)) by {
                                if in_body(s1.table, v) {
                                    assert(in_body(st.table, v));
                                }
                            }
                            lemma_join_below(s1.table, i, v, lim);
                            lemma_join_apart(s1.table, i, v);
                            let s2 = s1.with_table(s1.table.join_at(i, v));
                            lemma_join_chained(s1, i, v, inputs, outputs);
                            lemma_begin_edges(st, s1, s2, v, edges, bound);
                            lemma_walk_edges_tidy(
                                edges,
                                bound,
                                cuts,
                                exprs,
                                outputs,
                                v,
                                below,
                                0,
                                s2,
                                s2,
                                inputs,
                            );
                            match walk_edges(edges, bound, cuts, exprs, outputs, v, below, 0, Ok(s2)) {
                                Err(_) => {},
                                Ok(s3) => {
                                    if leave(s3, outputs, v).is_some() {
                                        lemma_finish_visit(
                                            st,
                                            s2,
                                            s3,
                                            outputs,
                                            v,
                                            inputs,
                                            edges,
                                            bound,
                                        );
                                    }
                                },
                            }
                        },
                    }
                }
            },
        }
    }
}

/// A node that joins a stage leaves the chain of the stages as it was.
pub proof fn lemma_join_chained(
    s1: WalkView,
    i: int,
    v: usize,
    inputs: Seq<usize>,
    outputs: Seq<usize>,
)
    requires
        chained(s1, inputs, outputs),
        0 <= i < s1.table.items.len(),
    ensures
        chained(s1.with_table(s1.table.join_at(i, v)), inputs, outputs),
{
    let s2 = s1.with_table(s1.table.join_at(i, v));
    assert forall|j: int| 0 <= j && j + 1 < s2.table.items.len() implies (
    #[trigger] s2.table.items[j]).barriers == s2.table.items[j + 1].ports
        && s2.table.items[j].barriers.len() > 0 by {
        assert(s1.table.items[j].barriers == s1.table.items[j + 1].ports);
    }
}

/// The state in which the walk begins with the edges out of `v`.
pub proof fn lemma_begin_edges(
    st: WalkView,
    s1: WalkView,
    s2: WalkView,
    v: usize,
    edges: Seq<NodeData>,
    bound: nat,
)
    requires
        tidy(st, edges, bound),
        done_or_below(st, v),
        s1.used == st.used,
        s2.used == st.used,
        forall|x: usize| in_body(st.table, x) <==> in_body(s1.table, x),
        forall|x: usize| in_body(s2.table, x) <==> in_body(s1.table, x) || x == v,
        apart(s2.table),
    ensures
        step_ok(s2, v, edges, bound),
        follows(s2, s2),
        forall|x: usize| in_body(s2.table, x) <==> in_body(st.table, x) || x == v,
{
    assert forall|x: usize| s2.used.contains(x) implies #[trigger] in_body(s2.table, x) by {
        assert(in_body(st.table, x));
        assert(in_body(s1.table, x));
    }
    assert forall|x: usize| #[trigger] in_body(s2.table, x) implies s2.used.contains(x) || x
        <= v by {
        if x != v {
            assert(in_body(s1.table, x));
            assert(in_body(st.table, x));
        }
    }
    assert forall|x: usize| in_body(s2.table, x) <==> in_body(st.table, x) || x == v by {
        if in_body(st.table, x) {
            assert(in_body(s1.table, x));
        }
        if in_body(s2.table, x) && x != v {
            assert(in_body(s1.table, x));
        }
    }
}

/// The state `s` of the walk among the edges out of `v`, after the state
/// `s2` in which they were begun: it is sound and tidy but that `v` is not
/// done yet, and everything in a body is done or at most `v`.
pub open spec fn step_ok(s: WalkView, v: usize, edges: Seq<NodeData>, bound: nat) -> bool {
    &&& apart(s.table)
    &&& closed(s.used, edges, bound)
    &&& forall|x: usize| s.used.contains(x) ==> #[trigger] in_body(s.table, x)
    &&& forall|x: usize| #[trigger] in_body(s.table, x) ==> s.used.contains(x) || x <= v
}

/// The walk along the edges out of a node keeps the state tidy, and every
/// node that one of these edges leads to is done afterwards.
pub proof fn lemma_walk_edges_tidy(
    edges: Seq<NodeData>,
    bound: nat,
    cuts: Seq<CutView>,
    exprs: Seq<usize>,
    outputs: Seq<usize>,
    v: usize,
    below: usize,
    i: nat,
    s2: WalkView,
    s: WalkView,
    inputs: Seq<usize>,
)
    requires
        sound_walk(s, inputs, outputs, (usize::MAX + 1) as nat),
        bound <= usize::MAX + 1,
        step_ok(s, v, edges, bound),
        follows(s2, s),
        i <= edges.len(),
        forall|j: int|
            0 <= j < i && (#[trigger] edges[j]).mom == v && v < edges[j].child < bound
                ==> s.used.contains(edges[j].child),
    ensures
        match walk_edges(edges, bound, cuts, exprs, outputs, v, below, i, Ok(s)) {
            Ok(r) => {
                &&& sound_walk(r, inputs, outputs, (usize::MAX + 1) as nat)
                &&& step_ok(r, v, edges, bound)
                &&& follows(s2, r)
                &&& forall|j: int|
                    0 <= j < edges.len() && (#[trigger] edges[j]).mom == v && v < edges[j].child
                        < bound ==> r.used.contains(edges[j].child)
            },
            Err(_) => true,
        },
    decreases bound - v, edges.len() - i,
{
    let lim = (usize::MAX + 1) as nat;
    if i < edges.len() {
        let e = edges[i as int];
        if e.mom == v && v < e.child < bound {
            let s0 = s.with_level(below);
            assert(done_or_below(s0, e.child));
            assert(tidy(s0, edges, bound));
            lemma_walk_sound(edges, bound, cuts, exprs, outputs, e.child, s0, inputs, lim);
            lemma_walk_tidy(edges, bound, cuts, exprs, outputs, e.child, s0, inputs);
            match walk(edges, bound, cuts, exprs, outputs, e.child, s0) {
                Err(w) => {
                    lemma_edges_err(edges, bound, cuts, exprs, outputs, v, below, i + 1, Err(w));
                },
                Ok(n) => {
                    assert(follows(s2, n)) by {
                        assert forall|x: usize| s2.used.contains(x) implies #[trigger] n.used.contains(
                            x,
                        ) by {
                            assert(s.used.contains(x));
                        }
                        assert forall|x: usize| in_body(s2.table, x) implies #[trigger] in_body(
                            n.table,
                            x,
                        ) by {
                            assert(in_body(s.table, x));
                        }
                        assert forall|x: usize| #[trigger] in_body(n.table, x) implies n.used.contains(
                            x,
                        ) || in_body(s2.table, x) by {
                            if !n.used.contains(x) {
                                assert(in_body(s0.table, x));
                                assert(in_body(s.table, x));
                                assert(!s.used.contains(x));
                            }
                        }
                    }
                    assert forall|x: usize| #[trigger] in_body(n.table, x) implies n.used.contains(
                        x,
                    ) || x <= v by {
                        if !n.used.contains(x) {
                            assert(in_body(s0.table, x));
                            assert(in_body(s.table, x));
                            assert(!s.used.contains(x));
                        }
                    }
                    assert forall|j: int|
                        0 <= j < i + 1 && (#[trigger] edges[j]).mom == v && v < edges[j].child
                            < bound implies n.used.contains(edges[j].child) by {
                        if j < i {
                            assert(s.used.contains(edges[j].child));
                        }
                    }
                    lemma_walk_edges_tidy(
                        edges,
                        bound,
                        cuts,
                        exprs,
                        outputs,
                        v,
                        below,
                        i + 1,
                        s2,
                        n,
                        inputs,
                    );
                },
            }
        } else {
            lemma_walk_edges_tidy(edges, bound, cuts, exprs, outputs, v, below, i + 1, s2, s, inputs);
        }
    }
}

/// Reaching a node changes no body.
pub proof fn lemma_enter_bodies(
    st: WalkView,
    cuts: Seq<CutView>,
    v: usize,
    inputs: Seq<usize>,
    outputs: Seq<usize>,
)
    requires
        chained(st, inputs, outputs),
        enter(st, cuts, v).is_ok(),
    ensures
        enter(st, cuts, v)->Ok_0.0.used == st.used,
        forall|x: usize|
            in_body(st.table, x) <==> in_body(enter(st, cuts, v)->Ok_0.0.table, x),
        apart(st.table) ==> apart(enter(st, cuts, v)->Ok_0.0.table),
{
    lemma_current_place(st, inputs, outputs);
    let ci = st.current()->Some_0;
    let h = crate::levels::first_cut(cuts, v, 0);
    let s1 = enter(st, cuts, v)->Ok_0.0;
    if h < cuts.len() && st.table.items[ci].barriers.len() == 0 {
        let cut = cuts[h as int];
        let n = st.table.items.len();
        assert(ci + 1 == n) by {
            if ci + 1 < n {
                assert(st.table.items[ci].barriers.len() > 0);
            }
        }
        let up = (st.level + 1) as usize;
        let t1 = st.table.close_at(ci, cut.ports);
        assert(!t1.has(cut.key));
        assert(s1.table.items == t1.items.push(fresh_stage(cut.ports)));
        lemma_same_bodies(st.table, s1.table);
    } else {
        lemma_same_bodies(st.table, s1.table);
    }
}

/// Leaving a node changes no body.
pub proof fn lemma_leave_bodies(st: WalkView, outputs: Seq<usize>, v: usize, inputs: Seq<usize>)
    requires
        chained(st, inputs, outputs),
        leave(st, outputs, v).is_some(),
    ensures
        leave(st, outputs, v)->Some_0.used == st.used.push(v),
        forall|x: usize| in_body(st.table, x) <==> in_body(leave(st, outputs, v)->Some_0.table, x),
        apart(st.table) ==> apart(leave(st, outputs, v)->Some_0.table),
{
    lemma_current_place(st, inputs, outputs);
    lemma_same_bodies(st.table, leave(st, outputs, v)->Some_0.table);
}

/// A node that is done stays so when it is noted again, and the nodes that
/// are done stay closed under the edges.
pub proof fn lemma_done_again(used: Seq<usize>, edges: Seq<NodeData>, bound: nat, v: usize)
    requires
        closed(used, edges, bound),
        used.contains(v),
    ensures
        closed(used.push(v), edges, bound),
{
    assert forall|j: int|
        0 <= j < edges.len() && used.push(v).contains((#[trigger] edges[j]).mom) && edges[j].mom
            < edges[j].child < bound implies used.push(v).contains(edges[j].child) by {
        crate::levels::lemma_push_contains(used, v, edges[j].mom);
        crate::levels::lemma_push_contains(used, v, edges[j].child);
    }
}

/// The walk from the inputs keeps the state tidy; when it is through, every
/// node in a body is done, and every input it started from is done.
pub proof fn lemma_walk_inputs_tidy(
    edges: Seq<NodeData>,
    bound: nat,
    cuts: Seq<CutView>,
    exprs: Seq<usize>,
    inputs: Seq<usize>,
    outputs: Seq<usize>,
    st: WalkView,
    n: nat,
)
    requires
        sound_walk(st, inputs, outputs, (usize::MAX + 1) as nat),
        bound <= usize::MAX + 1,
        tidy(st, edges, bound),
        forall|x: usize| #[trigger] in_body(st.table, x) ==> st.used.contains(x),
        n <= inputs.len(),
    ensures
        match walk_inputs(edges, bound, cuts, exprs, inputs, outputs, st, n) {
            Ok(r) => {
                &&& tidy(r, edges, bound)
                &&& forall|x: usize| #[trigger] in_body(r.table, x) ==> r.used.contains(x)
                &&& forall|i: int| 0 <= i < n ==> r.used.contains(#[trigger] inputs[i])
            },
            Err(_) => true,
        },
    decreases n,
{
    let lim = (usize::MAX + 1) as nat;
    if n > 0 {
        lemma_walk_inputs_tidy(edges, bound, cuts, exprs, inputs, outputs, st, (n - 1) as nat);
        assert forall|i: int| 0 <= i < inputs.len() implies (#[trigger] inputs[i]) < lim by {}
        lemma_walk_inputs_sound(edges, bound, cuts, exprs, inputs, outputs, st, (n - 1) as nat, lim);
        match walk_inputs(edges, bound, cuts, exprs, inputs, outputs, st, (n - 1) as nat) {
            Err(_) => {},
            Ok(s) => {
                let p = inputs[n - 1];
                let s0 = seeded(s, inputs, p);
                if s.table.keys.len() == 0 {
                    lemma_put_below(s.table, p, fresh_stage(inputs), lim);
                    assert(!s.table.keys.contains(p));
                    assert(s0.table.keys =~= seq![p]);
                    assert(s0.table.items =~= seq![fresh_stage(inputs)]);
                    assert(s0.order =~= seq![p]);
                }
                lemma_same_bodies(s.table, s0.table);
                assert(sound_walk(s0, inputs, outputs, lim));
                assert(tidy(s0, edges, bound)) by {
                    assert forall|x: usize| s0.used.contains(x) implies #[trigger] in_body(
                        s0.table,
                        x,
                    ) by {
                        assert(in_body(s.table, x));
                    }
                }
                assert(done_or_below(s0, p)) by {
                    assert forall|x: usize| #[trigger] in_body(s0.table, x) implies s0.used.contains(
                        x,
                    ) || x < p by {
                        assert(in_body(s.table, x));
                    }
                }
                lemma_walk_tidy(edges, bound, cuts, exprs, outputs, p, s0, inputs);
                match walk(edges, bound, cuts, exprs, outputs, p, s0) {
                    Err(_) => {},
                    Ok(r) => {
                        assert forall|x: usize| #[trigger] in_body(r.table, x) implies r.used.contains(
                            x,
                        ) by {
                            if !r.used.contains(x) {
                                assert(in_body(s0.table, x));
                                assert(in_body(s.table, x));
                                assert(s.used.contains(x));
                            }
                        }
                        assert forall|i: int| 0 <= i < n implies r.used.contains(
                            #[trigger] inputs[i],
                        ) by {
                            if i < n - 1 {
                                assert(s.used.contains(inputs[i]));
                            }
                        }
                    },
                }
            },
        }
    }
}

/// The stages that the walk of a graph without stages finds share the
/// expressions among them: no expression is twice in a body or in two
/// bodies; every input of the module is in a body; and where an edge leads
/// from an expression in a body to a greater key of the system, that key is
/// in a body too. So the bodies hold, once each, everything that the
/// inputs reach.
pub proof fn law_stage_bodies(g: GraphView, sv: SysView, w: WalkView)
    requires
        sv.nodes.len() <= usize::MAX,
        g.table.keys.len() == 0,
        g.table.items.len() == 0,
        g.order.len() == 0,
        g.submodules(sv) == Ok::<WalkView, WalkFailure>(w),
    ensures
        apart(w.table),
        forall|i: int| 0 <= i < g.inputs.len() ==> in_body(w.table, #[trigger] g.inputs[i]),
        forall|j: int|
            0 <= j < g.edges.len() && in_body(w.table, (#[trigger] g.edges[j]).mom)
                && g.edges[j].mom < g.edges[j].child < sv.len() ==> in_body(
                w.table,
                g.edges[j].child,
            ),
{
    let lim = (usize::MAX + 1) as nat;
    let st = g.walk_start();
    assert(st.order =~= st.table.keys);
    assert(sound_walk(st, g.inputs, g.outputs, lim));
    assert(tidy(st, g.edges, sv.len()));
    lemma_walk_inputs_tidy(
        g.edges,
        sv.len(),
        g.cuts,
        g.exprs,
        g.inputs,
        g.outputs,
        st,
        g.inputs.len(),
    );
}

/// What the visit of a body records: keys of the body only, and every
/// barrier marker among the expressions visited.
pub proof fn lemma_visit_all_keys(g: GraphView, sv: SysView, body: Seq<usize>, n: nat)
    requires
        n <= body.len(),
        all_below(body, sv.nodes.len()),
        all_below(g.callers, sv.nodes.len()),
        all_below(g.barrier_exprs, sv.nodes.len()),
        all_below(g.inputs, sv.nodes.len()),
    ensures
        all_below(g.visit_all(sv, body, n).callers, sv.nodes.len()),
        all_below(g.visit_all(sv, body, n).barrier_exprs, sv.nodes.len()),
        all_below(g.visit_all(sv, body, n).inputs, sv.nodes.len()),
        g.visit_all(sv, body, n).table == g.table,
        g.visit_all(sv, body, n).order == g.order,
        forall|j: int|
            0 <= j < n && sv.opcode(#[trigger] body[j]) == barrier_opcode() ==> g.visit_all(
                sv,
                body,
                n,
            ).barrier_exprs.contains(body[j]),
    decreases n,
{
    if n > 0 {
        let prev = g.visit_all(sv, body, (n - 1) as nat);
        let k = body[n - 1];
        let next = prev.visit(sv, k);
        lemma_visit_all_keys(g, sv, body, (n - 1) as nat);
        assert(k < sv.nodes.len());
        assert forall|j: int|
            0 <= j < n && sv.opcode(#[trigger] body[j]) == barrier_opcode() implies next.barrier_exprs.contains(
            body[j],
        ) by {
            if j < n - 1 {
                let i = choose|i: int|
                    0 <= i < prev.barrier_exprs.len() && prev.barrier_exprs[i] == body[j];
                assert(next.barrier_exprs[i] == body[j]);
            } else {
                assert(next.barrier_exprs[prev.barrier_exprs.len() as int] == k);
            }
        }
    }
}

/// The container that the analysis of a module gives speaks of nodes of
/// the system only and records every barrier marker of the module's body.
pub proof fn lemma_analysis_within(sv: SysView, m: usize, c: ContainerView)
    requires
        sv.wf(),
        sv.is_module(m),
        analysis(sv, m) == Ok::<ContainerView, PassError>(c),
    ensures
        container_within(c, sv.nodes.len()),
        records_barriers(sv, m, c),
{
    let lim = sv.nodes.len();
    let body = sv.body(m);
    assert(sv.node_ok(m));
    assert forall|i: int| 0 <= i < body.len() implies (#[trigger] body[i]) < lim by {
        assert(sv.is_expr(body[i]));
    }
    let g0 = GraphView::empty();
    lemma_visit_all_keys(g0, sv, body, body.len());
    let g = g0.visit_all(sv, body, body.len());
    let g1 = g.with_cuts(g.barrier_levels(sv));
    assert(sound_walk(g1.walk_start(), g1.inputs, g1.outputs, lim));
    lemma_walk_inputs_sound(
        g1.edges,
        lim,
        g1.cuts,
        g1.exprs,
        g1.inputs,
        g1.outputs,
        g1.walk_start(),
        g1.inputs.len(),
        lim,
    );
}

/// The stages that the walk of a graph without stages finds form a chain.
/// No two levels share a stage. The stage at level 0 has the first input
/// as its key and reads the module's inputs, in the order they were
/// recorded; what leaves the stage of each level is what the stage of the
/// next level reads; and what leaves the stage of the last level, if
/// anything, is the module's outputs.
pub proof fn law_stage_chain(g: GraphView, sv: SysView, w: WalkView, i: int)
    requires
        sv.nodes.len() <= usize::MAX,
        g.table.keys.len() == 0,
        g.table.items.len() == 0,
        g.order.len() == 0,
        g.submodules(sv) == Ok::<WalkView, WalkFailure>(w),
    ensures
        w.order == w.table.keys,
        w.order.no_duplicates(),
        g.inputs.len() > 0 ==> w.order.len() >= 1 && w.order[0] == g.inputs[0] && w.table.has(
            w.order[0],
        ) && w.table.get(w.order[0]).ports == g.inputs,
        0 <= i && i + 1 < w.order.len() ==> w.table.has(w.order[i]) && w.table.has(w.order[i + 1])
            && w.table.get(w.order[i]).barriers == w.table.get(w.order[i + 1]).ports,
        w.order.len() >= 1 ==> w.table.has(w.order[w.order.len() - 1]) && (w.table.get(
            w.order[w.order.len() - 1],
        ).barriers.len() == 0 || w.table.get(w.order[w.order.len() - 1]).barriers == g.outputs),
{
    let lim = (usize::MAX + 1) as nat;
    let st = g.walk_start();
    assert(st.order =~= st.table.keys);
    assert(sound_walk(st, g.inputs, g.outputs, lim));
    lemma_walk_inputs_sound(
        g.edges,
        sv.len(),
        g.cuts,
        g.exprs,
        g.inputs,
        g.outputs,
        st,
        g.inputs.len(),
        lim,
    );
    if w.order.len() >= 1 {
        w.table.lemma_find_place(0);
        w.table.lemma_find_place(w.order.len() - 1);
    }
    if 0 <= i && i + 1 < w.order.len() {
        w.table.lemma_find_place(i);
        w.table.lemma_find_place(i + 1);
        assert(w.table.items[i].barriers == w.table.items[i + 1].ports);
    }
}

/// The keys of the stages that the walk of a graph without stages finds.
/// The key of the stage at each level is the key at that place of the
/// table, and no key occurs twice. The stage at level 0 has as its key the
/// first input; the stage at every other level has the key of one of the
/// cuts and reads that cut's values.
pub proof fn law_stage_keys(g: GraphView, sv: SysView, w: WalkView, i: int)
    requires
        sv.nodes.len() <= usize::MAX,
        g.table.keys.len() == 0,
        g.table.items.len() == 0,
        g.order.len() == 0,
        g.submodules(sv) == Ok::<WalkView, WalkFailure>(w),
    ensures
        w.order == w.table.keys,
        w.table.wf(),
        0 <= i < w.order.len() ==> w.table.has(w.order[i]) && w.table.find(w.order[i]) == i,
        w.order.len() >= 1 ==> g.inputs.len() >= 1 && w.order[0] == g.inputs[0],
        1 <= i < w.order.len() ==> opened_by(g.cuts, w.order[i], w.table.get(w.order[i])),
{
    let lim = (usize::MAX + 1) as nat;
    let st = g.walk_start();
    assert(st.order =~= st.table.keys);
    assert(sound_walk(st, g.inputs, g.outputs, lim));
    assert(keyed(st.table, g.cuts));
    lemma_walk_inputs_sound(
        g.edges,
        sv.len(),
        g.cuts,
        g.exprs,
        g.inputs,
        g.outputs,
        st,
        g.inputs.len(),
        lim,
    );
    if 0 <= i < w.order.len() {
        w.table.lemma_find_place(i);
        if i >= 1 {
            assert(opened_by(g.cuts, w.table.keys[i], w.table.items[i]));
        }
    }
}

/// Every container of `map` is about a module of `sv` and records the
/// barrier markers of that module's body.
pub open spec fn all_record(sv: SysView, map: Map<usize, ContainerView>) -> bool {
    forall|k: usize| #[trigger]
        map.contains_key(k) ==> sv.is_module(k) && records_barriers(sv, k, map[k])
}

/// What discovery finds can be handed to the rewrite: every container it
/// adds speaks of nodes of the system only, is about a module, and records
/// the barrier markers of the module's body.
pub proof fn law_discovered_containers(
    sv: SysView,
    found: Map<usize, ContainerView>,
    n: nat,
    map: Map<usize, ContainerView>,
)
    requires
        sv.wf(),
        n <= sv.nodes.len(),
        all_within(found, sv.nodes.len()),
        all_record(sv, found),
        discover(sv, found, n) == Ok::<Map<usize, ContainerView>, PassError>(map),
    ensures
        all_within(map, sv.nodes.len()),
        all_record(sv, map),
    decreases n,
{
    if n > 0 {
        let prev = discover(sv, found, (n - 1) as nat)->Ok_0;
        let m = (n - 1) as usize;
        law_discovered_containers(sv, found, (n - 1) as nat, prev);
        if sv.is_module(m) && is_flagged(sv, m) {
            let c = analysis(sv, m)->Ok_0;
            lemma_analysis_within(sv, m, c);
            assert forall|k: usize| #[trigger] map.contains_key(k) implies container_within(
                map[k],
                sv.nodes.len(),
            ) by {
                if k != m {
                    assert(prev.contains_key(k));
                }
            }
            assert forall|k: usize| #[trigger] map.contains_key(k) implies sv.is_module(k)
                && records_barriers(sv, k, map[k]) by {
                if k != m {
                    assert(prev.contains_key(k));
                    assert(sv.is_module(k) && records_barriers(sv, k, prev[k]));
                }
            }
        } else {
            assert(map == prev);
        }
    }
}


/// Discovery, then the rewrite. Where discovery on a well-formed system
/// goes well and the rewrite by what it found goes well too, every module
/// that discovery flagged was rewritten as the laws of the rewrite
/// suppose, by a container that records its barrier markers.
pub proof fn law_discovered_then_cut(
    sv: SysView,
    map: Map<usize, ContainerView>,
    out: OutcomeView,
    key: usize,
)
    requires
        sv.wf(),
        discover(sv, Map::empty(), sv.nodes.len()) == Ok::<Map<usize, ContainerView>, PassError>(
            map,
        ),
        cut(sv, map) == Ok::<OutcomeView, Failure>(out),
        out.sys.nodes.len() <= usize::MAX,
        map.contains_key(key),
    ensures
        ({
            let prev = cut_before(sv, map, key as nat);
            &&& sv.is_module(key)
            &&& rewrite_module(prev.sys, prev.skipped, key, map[key]).is_ok()
            &&& rewritten(
                prev.sys,
                prev.skipped,
                key,
                map[key],
                sv.nodes.len(),
                rewrite_module(prev.sys, prev.skipped, key, map[key])->Ok_0,
                out.sys,
            )
            &&& records_barriers(prev.sys, key, map[key])
        }),
{
    law_discovered_containers(sv, Map::empty(), sv.nodes.len(), map);
    law_every_module(sv, map, out, key);
}

} // verus!
