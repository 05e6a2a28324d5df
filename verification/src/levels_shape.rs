//! What the rewrite of one module does level by level: every state on the
//! way is sound, and the system only advances.

use crate::emission::{erase_each, hand_over, rewrite_module, run_level, run_levels, RunView};
use crate::ir::{kept, SysView};
use crate::shape::{
    advances, all_below, lemma_advances_refl, lemma_advances_trans, lemma_erase_each,
    lemma_erase_lens, lemma_erases_advances,
};
use crate::stage::{ContainerView, StageView};
use crate::staged::{
    entry_of, lemma_run_stage, lemma_stage_entry_len, lemma_stage_work_len, sound, valid_values,
};
use crate::keys::lemma_first_at;
use vstd::prelude::*;

verus! {

/// The container speaks of nodes below `lim` only, and its table is consistent.
pub open spec fn container_within(c: ContainerView, lim: nat) -> bool {
    &&& c.table.wf()
    &&& all_below(c.callers, lim)
    &&& all_below(c.barrier_exprs, lim)
    &&& forall|i: int| 0 <= i < c.table.items.len() ==> all_below(#[trigger] c.table.items[i].body, lim)
}

/// The stage at level `k`.
pub open spec fn stage_at(c: ContainerView, k: int) -> StageView {
    c.table.get(c.order[k])
}

/// The state in which the rewrite of the module `source` starts its levels.
pub open spec fn run_start(sv: SysView, skipped: Seq<usize>, source: usize, c: ContainerView) -> RunView {
    RunView {
        calls: crate::callers::keep_called(sv, c.callers, c.callers.len()),
        sys: erase_each(sv, c.barrier_exprs, c.barrier_exprs.len()),
        handoff: Map::empty(),
        modules: seq![source],
        skipped,
    }
}

/// The stage of a level that has one is one of the table's stages.
pub proof fn lemma_stage_within(c: ContainerView, k: int, lim: nat)
    requires
        container_within(c, lim),
        c.table.has(c.order[k]),
    ensures
        all_below(stage_at(c, k).body, lim),
{
    lemma_first_at(c.table.keys, c.order[k]);
    let i = c.table.find(c.order[k]);
    assert(all_below(c.table.items[i].body, lim));
}

/// A level takes no node away.
pub proof fn lemma_run_level_len(run: RunView, c: ContainerView, k: nat)
    ensures
        match run_level(run, c, k) {
            Ok(r) => run.sys.nodes.len() <= r.sys.nodes.len(),
            Err(_) => true,
        },
{
    if c.table.has(c.order[k as int]) && k > 0 {
        let stage = stage_at(c, k as int);
        let e = entry_of(run, c, k, stage);
        lemma_stage_entry_len(
            run.sys,
            crate::text::stage_name(c.name, k as usize),
            run.modules[k - 1],
            stage.ports,
            crate::emission::handed(run.handoff, stage.ports),
        );
        lemma_stage_work_len(
            e,
            crate::emission::stage_remap(
                run.sys,
                crate::text::stage_name(c.name, k as usize),
                run.modules[k - 1],
                stage.ports,
                crate::emission::handed(run.handoff, stage.ports),
            ),
            c.callers,
            run.calls,
            stage.body,
            run.sys.nodes.len(),
            k + 1 == c.order.len(),
            run.skipped,
        );
    }
}

/// Where the first `n` levels go well, so do the first `j` of them, and no
/// node is taken away after them.
pub proof fn lemma_run_levels_len(run: RunView, c: ContainerView, j: nat, n: nat)
    requires
        j <= n,
        run_levels(run, c, n).is_ok(),
    ensures
        run_levels(run, c, j).is_ok(),
        run_levels(run, c, j)->Ok_0.sys.nodes.len() <= run_levels(run, c, n)->Ok_0.sys.nodes.len(),
    decreases n - j,
{
    if j < n {
        let prev = run_levels(run, c, (n - 1) as nat)->Ok_0;
        lemma_run_level_len(prev, c, (n - 1) as nat);
        lemma_run_levels_len(run, c, j, (n - 1) as nat);
    }
}

/// The number of modules after `j` levels: the source module and one for
/// each level above 0.
pub open spec fn modules_after(j: nat) -> nat {
    if j <= 1 {
        1
    } else {
        j
    }
}

/// Handing the values of stage 0 over keeps what is handed over in the system.
proof fn lemma_hand_over_valid(handoff: Map<usize, usize>, sv: SysView, barriers: Seq<usize>, n: nat)
    requires
        valid_values(sv, handoff),
        hand_over(handoff, sv, barriers, n).is_ok(),
    ensures
        valid_values(sv, hand_over(handoff, sv, barriers, n)->Ok_0),
    decreases n,
{
    if n > 0 {
        lemma_hand_over_valid(handoff, sv, barriers, (n - 1) as nat);
    }
}

/// One level: the state stays sound and the system advances.
pub proof fn lemma_run_level(run: RunView, c: ContainerView, k: nat, lim: nat)
    requires
        sound(run),
        run.modules.len() == modules_after(k),
        lim <= run.sys.nodes.len(),
        container_within(c, lim),
        match run_level(run, c, k) {
            Ok(r) => r.sys.nodes.len() <= usize::MAX,
            Err(_) => false,
        },
    ensures
        match run_level(run, c, k) {
            Ok(r) => {
                &&& sound(r)
                &&& r.calls == run.calls
                &&& r.modules.len() == modules_after(k + 1)
                &&& forall|i: int| 0 <= i < run.modules.len() ==> r.modules[i] == run.modules[i]
                &&& advances(run.sys, r.sys, lim, run.sys.nodes.len())
            },
            Err(_) => false,
        },
{
    let stage = stage_at(c, k as int);
    if k == 0 {
        lemma_hand_over_valid(run.handoff, run.sys, stage.barriers, stage.barriers.len());
        lemma_advances_refl(run.sys, lim, run.sys.nodes.len());
    } else {
        lemma_stage_within(c, k as int, lim);
        lemma_run_stage(run, c, k, stage, lim);
    }
}

/// The first `j` levels: the state stays sound and the system advances.
pub proof fn lemma_levels_sound(run: RunView, c: ContainerView, j: nat, lim: nat)
    requires
        sound(run),
        run.modules.len() == 1,
        lim <= run.sys.nodes.len(),
        container_within(c, lim),
        match run_levels(run, c, j) {
            Ok(r) => r.sys.nodes.len() <= usize::MAX,
            Err(_) => false,
        },
    ensures
        match run_levels(run, c, j) {
            Ok(r) => {
                &&& sound(r)
                &&& r.calls == run.calls
                &&& r.modules.len() == modules_after(j)
                &&& r.modules[0] == run.modules[0]
                &&& advances(run.sys, r.sys, lim, run.sys.nodes.len())
            },
            Err(_) => false,
        },
    decreases j,
{
    if j == 0 {
        lemma_advances_refl(run.sys, lim, run.sys.nodes.len());
    } else {
        let prev = run_levels(run, c, (j - 1) as nat)->Ok_0;
        assert(run_levels(run, c, (j - 1) as nat).is_ok());
        lemma_run_level_len(prev, c, (j - 1) as nat);
        lemma_levels_sound(run, c, (j - 1) as nat, lim);
        lemma_run_level(prev, c, (j - 1) as nat, lim);
        let r = run_levels(run, c, j)->Ok_0;
        lemma_advances_trans(run.sys, prev.sys, r.sys, lim, run.sys.nodes.len(), prev.sys.nodes.len());
    }
}

/// From the state after `j` levels to the state after `n`: the system
/// advances, and the modules of the first levels stay.
pub proof fn lemma_levels_tail(run: RunView, c: ContainerView, j: nat, n: nat, lim: nat)
    requires
        sound(run),
        run.modules.len() == 1,
        lim <= run.sys.nodes.len(),
        container_within(c, lim),
        j <= n,
        match run_levels(run, c, n) {
            Ok(r) => r.sys.nodes.len() <= usize::MAX,
            Err(_) => false,
        },
    ensures
        run_levels(run, c, j).is_ok(),
        sound(run_levels(run, c, j)->Ok_0),
        sound(run_levels(run, c, n)->Ok_0),
        run_levels(run, c, j)->Ok_0.modules.len() == modules_after(j),
        run_levels(run, c, n)->Ok_0.modules.len() == modules_after(n),
        forall|i: int|
            0 <= i < modules_after(j) ==> run_levels(run, c, n)->Ok_0.modules[i] == run_levels(
                run,
                c,
                j,
            )->Ok_0.modules[i],
        advances(
            run_levels(run, c, j)->Ok_0.sys,
            run_levels(run, c, n)->Ok_0.sys,
            lim,
            run_levels(run, c, j)->Ok_0.sys.nodes.len(),
        ),
        lim <= run_levels(run, c, j)->Ok_0.sys.nodes.len(),
    decreases n - j,
{
    lemma_run_levels_len(run, c, j, n);
    lemma_run_levels_len(run, c, 0, j);
    lemma_levels_sound(run, c, j, lim);
    lemma_levels_sound(run, c, n, lim);
    let rj = run_levels(run, c, j)->Ok_0;
    let rn = run_levels(run, c, n)->Ok_0;
    if j == n {
        lemma_advances_refl(rj.sys, lim, rj.sys.nodes.len());
    } else {
        let prev = run_levels(run, c, (n - 1) as nat)->Ok_0;
        lemma_run_levels_len(run, c, (n - 1) as nat, n);
        lemma_levels_tail(run, c, j, (n - 1) as nat, lim);
        lemma_run_level(prev, c, (n - 1) as nat, lim);
        lemma_advances_trans(rj.sys, prev.sys, rn.sys, lim, rj.sys.nodes.len(), prev.sys.nodes.len());
    }
}

/// The start of the levels is sound: erasing the barrier markers keeps the
/// system well formed, and the source module is a module.
pub proof fn lemma_run_start(
    sv: SysView,
    skipped: Seq<usize>,
    source: usize,
    c: ContainerView,
    lim: nat,
)
    requires
        sv.wf(),
        sv.is_module(source),
        lim <= sv.nodes.len(),
        container_within(c, lim),
    ensures
        sound(run_start(sv, skipped, source, c)),
        run_start(sv, skipped, source, c).sys.nodes.len() == sv.nodes.len(),
        advances(sv, run_start(sv, skipped, source, c).sys, lim, sv.nodes.len()),
        crate::shape::erases(sv, run_start(sv, skipped, source, c).sys, lim),
{
    let n = c.barrier_exprs.len();
    lemma_erase_each(sv, c.barrier_exprs, n, lim);
    lemma_erase_lens(sv, c.barrier_exprs, 0, n);
    let s = erase_each(sv, c.barrier_exprs, n);
    lemma_erases_advances(sv, s, lim, sv.nodes.len());
    assert(kept(sv, s, source, sv.nodes.len()));
}


/// The rewrite of one module takes no node away.
pub proof fn lemma_rewrite_module_len(sv: SysView, skipped: Seq<usize>, source: usize, c: ContainerView)
    ensures
        match rewrite_module(sv, skipped, source, c) {
            Ok(run) => sv.nodes.len() <= run.sys.nodes.len(),
            Err(_) => true,
        },
{
    if rewrite_module(sv, skipped, source, c).is_ok() {
        let run0 = run_start(sv, skipped, source, c);
        lemma_erase_lens(sv, c.barrier_exprs, 0, c.barrier_exprs.len());
        lemma_run_levels_len(run0, c, 0, c.order.len());
    }
}

/// The rewrite of one module keeps the system well formed and is an advance.
pub proof fn lemma_rewrite_module(
    sv: SysView,
    skipped: Seq<usize>,
    source: usize,
    c: ContainerView,
    lim: nat,
)
    requires
        sv.wf(),
        lim <= sv.nodes.len(),
        container_within(c, lim),
        match rewrite_module(sv, skipped, source, c) {
            Ok(run) => run.sys.nodes.len() <= usize::MAX,
            Err(_) => false,
        },
    ensures
        rewrite_module(sv, skipped, source, c)->Ok_0.sys.wf(),
        advances(sv, rewrite_module(sv, skipped, source, c)->Ok_0.sys, lim, sv.nodes.len()),
{
    let run0 = run_start(sv, skipped, source, c);
    let run = rewrite_module(sv, skipped, source, c)->Ok_0;
    lemma_run_start(sv, skipped, source, c, lim);
    lemma_levels_sound(run0, c, c.order.len(), lim);
    lemma_advances_trans(sv, run0.sys, run.sys, lim, sv.nodes.len(), sv.nodes.len());
}

} // verus!
