//! Which stage each expression belongs to: a depth-first walk from the
//! module's inputs that opens a new stage wherever it meets a value that
//! crosses a cut.

use crate::error::PassError;
use crate::levels::{first_cut, CutView, NodeData};
use crate::stage::{fresh_stage, TableView};
use vstd::prelude::*;

verus! {

/// The state of the walk: the level of the stage being filled, the stages,
/// the key of the stage at each level, and the nodes that are done. The
/// stage at level 0 has as its key the input at which it was opened, every
/// other stage the key of the cut that opened it.
pub struct WalkView {
    pub level: usize,
    pub table: TableView,
    pub order: Seq<usize>,
    pub used: Seq<usize>,
}

/// `order` with `k` as the key at `level`, which is at most one past the end.
pub open spec fn set_level(order: Seq<usize>, level: int, k: usize) -> Seq<usize> {
    if level < order.len() {
        order.update(level, k)
    } else {
        order.push(k)
    }
}

impl WalkView {
    /// The place in the table of the stage at the current level, where the
    /// level has a stage.
    pub open spec fn current(self) -> Option<int> {
        if self.level < self.order.len() <= usize::MAX && self.table.has(
            self.order[self.level as int],
        ) {
            Some(self.table.find(self.order[self.level as int]))
        } else {
            None
        }
    }

    pub open spec fn with_level(self, level: usize) -> WalkView {
        WalkView { level, table: self.table, order: self.order, used: self.used }
    }

    pub open spec fn with_table(self, table: TableView) -> WalkView {
        WalkView { level: self.level, table, order: self.order, used: self.used }
    }

    pub open spec fn with_used(self, used: Seq<usize>) -> WalkView {
        WalkView { level: self.level, table: self.table, order: self.order, used }
    }
}

/// What reaching `v` does to the stages, and the level at which the walk goes
/// on below `v`. Where `v` crosses a cut and the current stage is still open,
/// the current stage is closed with the cut's values and a stage that reads
/// them is opened one level up, under the cut's key. The walk gives up
/// where the current level has no stage, and where the cut's key has a
/// stage already: no stage is opened twice.
pub open spec fn enter(st: WalkView, cuts: Seq<CutView>, v: usize) -> Result<
    (WalkView, usize),
    PassError,
> {
    match st.current() {
        None => Err(PassError::MissingStage),
        Some(ci) => {
            let cur = st.table.items[ci];
            let h = first_cut(cuts, v, 0);
            if h >= cuts.len() {
                Ok((st, st.level))
            } else if cur.barriers.len() == 0 {
                let cut = cuts[h as int];
                let up = (st.level + 1) as usize;
                if st.table.has(cut.key) {
                    Err(PassError::StageTaken)
                } else {
                    Ok(
                        (
                            WalkView {
                                level: st.level,
                                table: st.table.close_at(ci, cut.ports).put(
                                    cut.key,
                                    fresh_stage(cut.ports),
                                ),
                                order: set_level(st.order, up as int, cut.key),
                                used: st.used,
                            },
                            up,
                        ),
                    )
                }
            } else if cur.ports.contains(v) {
                Ok(
                    (
                        st,
                        if st.level == 0 {
                            0
                        } else {
                            (st.level - 1) as usize
                        },
                    ),
                )
            } else if cur.barriers.contains(v) {
                Ok((st, (st.level + 1) as usize))
            } else {
                Ok((st, st.level))
            }
        },
    }
}

/// What leaving `v` does: a module output labels a stage that is still open
/// as the last one, and `v` is done. `None` where `v` is an output and the
/// current level has no stage.
pub open spec fn leave(st: WalkView, outputs: Seq<usize>, v: usize) -> Option<WalkView> {
    if outputs.contains(v) {
        match st.current() {
            None => None,
            Some(i) => Some(
                WalkView {
                    level: st.level,
                    table: if st.table.items[i].barriers.len() == 0 {
                        st.table.close_at(i, outputs)
                    } else {
                        st.table
                    },
                    order: st.order,
                    used: st.used.push(v),
                },
            ),
        }
    } else {
        Some(st.with_used(st.used.push(v)))
    }
}

/// How the walk gave up: why, and the state in which it did.
pub struct WalkFailure {
    pub error: PassError,
    pub state: WalkView,
}

/// The walk gave up in the state `state` for want of a stage.
pub open spec fn no_stage(state: WalkView) -> WalkFailure {
    WalkFailure { error: PassError::MissingStage, state }
}

/// The walk gave up in the state `state` at a node that is not recorded.
pub open spec fn dangling(state: WalkView) -> WalkFailure {
    WalkFailure { error: PassError::DanglingKey, state }
}

/// The state after the walk went through `v` and, if `v` was not done
/// before, through everything below it. The walk gives up at a node that
/// is not among the recorded expressions `exprs`, where it comes to a
/// level that has no stage, and where a cut's key has a stage already.
pub open spec fn walk(
    edges: Seq<NodeData>,
    bound: nat,
    cuts: Seq<CutView>,
    exprs: Seq<usize>,
    outputs: Seq<usize>,
    v: usize,
    st: WalkView,
) -> Result<WalkView, WalkFailure>
    decreases bound - v, edges.len() + 1,
{
    if !exprs.contains(v) {
        Err(dangling(st))
    } else {
        match enter(st, cuts, v) {
            Err(error) => Err(WalkFailure { error, state: st }),
            Ok((s1, below)) => {
                let after = if s1.used.contains(v) {
                    Ok(s1)
                } else {
                    match s1.current() {
                        None => Err(no_stage(s1)),
                        Some(i) => walk_edges(
                            edges,
                            bound,
                            cuts,
                            exprs,
                            outputs,
                            v,
                            below,
                            0,
                            Ok(s1.with_table(s1.table.join_at(i, v))),
                        ),
                    }
                };
                match after {
                    Err(w) => Err(w),
                    Ok(s2) => match leave(s2, outputs, v) {
                        None => Err(no_stage(s2)),
                        Some(s3) => Ok(s3),
                    },
                }
            },
        }
    }
}

/// The state after the walk followed the edges out of `v` from place `i` on,
/// each at level `below`.
pub open spec fn walk_edges(
    edges: Seq<NodeData>,
    bound: nat,
    cuts: Seq<CutView>,
    exprs: Seq<usize>,
    outputs: Seq<usize>,
    v: usize,
    below: usize,
    i: nat,
    st: Result<WalkView, WalkFailure>,
) -> Result<WalkView, WalkFailure>
    decreases bound - v, edges.len() - i,
{
    if i >= edges.len() {
        st
    } else {
        match st {
            Err(w) => Err(w),
            Ok(s) => {
                let e = edges[i as int];
                let next = if e.mom == v && v < e.child < bound {
                    walk(edges, bound, cuts, exprs, outputs, e.child, s.with_level(below))
                } else {
                    Ok(s)
                };
                walk_edges(edges, bound, cuts, exprs, outputs, v, below, i + 1, next)
            },
        }
    }
}

/// The state before the walk starts at the input `v`: if there is no stage
/// yet, the stage at level 0 is opened under the key `v`; it reads all the
/// module's inputs.
pub open spec fn seeded(st: WalkView, inputs: Seq<usize>, v: usize) -> WalkView {
    if st.table.keys.len() == 0 {
        WalkView {
            level: 0,
            table: st.table.put(v, fresh_stage(inputs)),
            order: set_level(st.order, 0, v),
            used: st.used,
        }
    } else {
        st.with_level(0)
    }
}

/// The state after the walk started at each of the first `n` inputs, in
/// order; or how it gave up.
pub open spec fn walk_inputs(
    edges: Seq<NodeData>,
    bound: nat,
    cuts: Seq<CutView>,
    exprs: Seq<usize>,
    inputs: Seq<usize>,
    outputs: Seq<usize>,
    st: WalkView,
    n: nat,
) -> Result<WalkView, WalkFailure>
    decreases n,
{
    if n == 0 {
        Ok(st)
    } else {
        match walk_inputs(edges, bound, cuts, exprs, inputs, outputs, st, (n - 1) as nat) {
            Err(w) => Err(w),
            Ok(s) => walk(
                edges,
                bound,
                cuts,
                exprs,
                outputs,
                inputs[n - 1],
                seeded(s, inputs, inputs[n - 1]),
            ),
        }
    }
}

} // verus!
