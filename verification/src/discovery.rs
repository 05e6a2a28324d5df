//! Discovery: which modules of a system hold a barrier marker, and what the
//! analysis makes of each of them.

use crate::builder::SysBuilder;
use crate::error::PassError;
use crate::graph::{lemma_visit_all_wf, GraphView, GraphVisitor};
use crate::ir::{barrier_opcode, BlockIntrinsic, Opcode, SysView};
use crate::rewrite::container_views;
use crate::stage::{ContainerView, SubModuleContainer};
use std::collections::HashMap;
use vstd::prelude::*;
use vstd::string::*;

verus! {

/// Test harnesses are no designs: a module of one of these names is never split.
pub open spec fn is_harness(name: Seq<char>) -> bool {
    name == "driver"@ || name == "testbench"@
}

/// Is one of the first `n` expressions of `body` a barrier marker?
pub open spec fn names_barrier(sv: SysView, body: Seq<usize>, n: int) -> bool {
    exists|j: int| 0 <= j < n && sv.opcode(#[trigger] body[j]) == barrier_opcode()
}

/// The module `m` is to be split: it is no harness and its body holds a
/// barrier marker.
pub open spec fn is_flagged(sv: SysView, m: usize) -> bool {
    !is_harness(sv.module(m).name) && names_barrier(sv, sv.body(m), sv.body(m).len() as int)
}

/// What the analysis makes of the module `m`: the graph of its body, the
/// cuts at its barrier values, and the stages that the walk from its inputs
/// finds.
pub open spec fn analysis(sv: SysView, m: usize) -> Result<ContainerView, PassError> {
    let g = GraphView::empty().visit_all(sv, sv.body(m), sv.body(m).len());
    match g.with_cuts(g.barrier_levels(sv)).submodules(sv) {
        Err(w) => Err(w.error),
        Ok(w) => Ok(
            ContainerView {
                name: sv.module(m).name,
                table: w.table,
                order: w.order,
                callers: g.callers,
                barrier_exprs: g.barrier_exprs,
            },
        ),
    }
}

/// The containers after the modules with a key below `n` were looked at, by
/// rising key: each flagged module gets the container that its analysis gives.
pub open spec fn discover(sv: SysView, found: Map<usize, ContainerView>, n: nat) -> Result<
    Map<usize, ContainerView>,
    PassError,
>
    decreases n,
{
    if n == 0 {
        Ok(found)
    } else {
        match discover(sv, found, (n - 1) as nat) {
            Err(e) => Err(e),
            Ok(prev) => {
                let m = (n - 1) as usize;
                if sv.is_module(m) && is_flagged(sv, m) {
                    match analysis(sv, m) {
                        Err(e) => Err(e),
                        Ok(c) => Ok(prev.insert(m, c)),
                    }
                } else {
                    Ok(prev)
                }
            },
        }
    }
}

/// Discovery found `kept` and then failed with `e` at the next module.
pub open spec fn stopped_with(
    sv: SysView,
    found: Map<usize, ContainerView>,
    kept: Map<usize, ContainerView>,
    e: PassError,
) -> bool {
    exists|j: nat|
        j < sv.len() && #[trigger] discover(sv, found, j) == Ok::<
            Map<usize, ContainerView>,
            PassError,
        >(kept) && discover(sv, found, j + 1) == Err::<Map<usize, ContainerView>, PassError>(e)
}

/// Once discovery has failed it stays failed.
proof fn lemma_discover_err(sv: SysView, found: Map<usize, ContainerView>, n: nat, m: nat)
    requires
        n <= m,
        discover(sv, found, n).is_err(),
    ensures
        discover(sv, found, m) == discover(sv, found, n),
    decreases m,
{
    if n < m {
        lemma_discover_err(sv, found, n, (m - 1) as nat);
    }
}

/// Analyses the module `m` of `sys`.
pub fn analyze(sys: &SysBuilder, m: usize) -> (r: Result<SubModuleContainer, PassError>)
    requires
        sys@.wf(),
        sys@.is_module(m),
    ensures
        match r {
            Ok(c) => analysis(sys@, m) == Ok::<ContainerView, PassError>(c@),
            Err(e) => analysis(sys@, m) == Err::<ContainerView, PassError>(e),
        },
{
    let mut visitor = GraphVisitor::new(sys);
    visitor.visit_module(m);
    proof {
        assert(sys@.node_ok(m));
        lemma_visit_all_wf(GraphView::empty(), sys@, sys@.body(m), sys@.body(m).len());
    }
    visitor.graph.gather_barrier_level(sys);
    match visitor.graph.gather_submodules(sys) {
        Err(e) => Err(e),
        Ok(()) => Ok(visitor.graph.into_container(sys.module_name(m))),
    }
}

/// Finds the modules that hold a barrier marker and analyses each.
pub struct GatherModulesToCut<'sys> {
    sys: &'sys SysBuilder,
    has_barrier: bool,
    submodule_container_map: HashMap<usize, SubModuleContainer>,
}

impl<'sys> GatherModulesToCut<'sys> {
    /// The system that is looked at.
    pub closed spec fn system(&self) -> SysView {
        self.sys@
    }

    /// Has a barrier marker been seen since the flag was last cleared?
    pub closed spec fn flag(&self) -> bool {
        self.has_barrier
    }

    /// The containers found so far, by the key of their module.
    pub closed spec fn found(&self) -> Map<usize, ContainerView> {
        container_views(self.submodule_container_map@)
    }

    /// A discovery on `sys` that has found nothing yet.
    pub fn new(sys: &'sys SysBuilder) -> (r: Self)
        ensures
            r.system() == sys@,
            !r.flag(),
            r.found() == Map::<usize, ContainerView>::empty(),
    {
        let r = Self {
            sys,
            has_barrier: false,
            submodule_container_map: HashMap::new(),
        };
        assert(r.found() =~= Map::<usize, ContainerView>::empty());
        r
    }

    /// The containers found, by the key of their module.
    pub fn submodule_container_map(&self) -> (r: &HashMap<usize, SubModuleContainer>)
        ensures
            container_views(r@) == self.found(),
    {
        &self.submodule_container_map
    }

    /// Hands the containers found over, by the key of their module.
    pub fn into_submodule_container_map(self) -> (r: HashMap<usize, SubModuleContainer>)
        ensures
            container_views(r@) == self.found(),
    {
        self.submodule_container_map
    }

    /// Raises the flag if `expr` is a barrier marker. Always `None`: the
    /// visit never ends a traversal early.
    pub fn visit_expr(&mut self, expr: usize) -> (r: Option<()>)
        requires
            old(self).system().is_expr(expr),
        ensures
            r.is_none(),
            final(self).flag() == (old(self).flag() || old(self).system().opcode(expr)
                == barrier_opcode()),
            final(self).system() == old(self).system(),
            final(self).found() == old(self).found(),
    {
        let op = self.sys.opcode(expr);
        if op == (Opcode::BlockIntrinsic { intrinsic: BlockIntrinsic::Barrier }) {
            self.has_barrier = true;
        }
        None
    }

    /// Visits the body of `module`, unless the module is a test harness.
    pub fn visit_module(&mut self, module: usize) -> (r: Option<()>)
        requires
            old(self).system().wf(),
            old(self).system().is_module(module),
        ensures
            r.is_none(),
            final(self).flag() == (old(self).flag() || is_flagged(old(self).system(), module)),
            final(self).system() == old(self).system(),
            final(self).found() == old(self).found(),
    {
        let sys = self.sys;
        let name = sys.module_name(module);
        if name == String::from_str("driver") || name == String::from_str("testbench") {
            return None;
        }
        let n = sys.body_len(module);
        let mut i: usize = 0;
        while i < n
            invariant
                i <= n,
                n == sys@.body(module).len(),
                sys@.wf(),
                sys@.is_module(module),
                sys@ == self.system(),
                self.system() == old(self).system(),
                self.found() == old(self).found(),
                self.flag() == (old(self).flag() || names_barrier(sys@, sys@.body(module), i as int)),
            decreases n - i,
        {
            let k = sys.body_at(module, i);
            proof {
                assert(sys@.node_ok(module));
                assert(sys@.is_expr(sys@.body(module)[i as int]));
            }
            let ghost before = self.flag();
            self.visit_expr(k);
            proof {
                let body = sys@.body(module);
                if names_barrier(sys@, body, i + 1) {
                    let j = choose|j: int|
                        0 <= j < i + 1 && sys@.opcode(#[trigger] body[j]) == barrier_opcode();
                    if j < i {
                        assert(names_barrier(sys@, body, i as int));
                    }
                }
                if names_barrier(sys@, body, i as int) {
                    let j = choose|j: int|
                        0 <= j < i && sys@.opcode(#[trigger] body[j]) == barrier_opcode();
                    assert(names_barrier(sys@, body, i + 1));
                }
                if sys@.opcode(body[i as int]) == barrier_opcode() {
                    assert(names_barrier(sys@, body, i + 1));
                }
            }
            i += 1;
        }
        None
    }

    /// Looks at every module, by rising key, and keeps a container for each
    /// that is to be split. The system that is looked at is the one given to
    /// `new`. Fails where the stage walk of a module gives up; the
    /// containers found before that module are kept.
    pub fn enter(&mut self, _sys: &SysBuilder) -> (r: Result<(), PassError>)
        requires
            old(self).system().wf(),
        ensures
            match r {
                Ok(()) => discover(
                    old(self).system(),
                    old(self).found(),
                    old(self).system().len(),
                ) == Ok::<Map<usize, ContainerView>, PassError>(final(self).found()),
                Err(e) => discover(old(self).system(), old(self).found(), old(self).system().len())
                    == Err::<Map<usize, ContainerView>, PassError>(e) && stopped_with(
                    old(self).system(),
                    old(self).found(),
                    final(self).found(),
                    e,
                ),
            },
            final(self).system() == old(self).system(),
    {
        let sys = self.sys;
        let n = sys.len();
        let mut m: usize = 0;
        while m < n
            invariant
                m <= n,
                n == sys@.nodes.len(),
                sys@.wf(),
                sys@ == self.system(),
                self.system() == old(self).system(),
                discover(sys@, old(self).found(), m as nat) == Ok::<
                    Map<usize, ContainerView>,
                    PassError,
                >(self.found()),
            decreases n - m,
        {
            if sys.is_module(m) {
                self.has_barrier = false;
                self.visit_module(m);
                if self.has_barrier {
                    match analyze(sys, m) {
                        Err(e) => {
                            proof {
                                lemma_discover_err(
                                    sys@,
                                    old(self).found(),
                                    (m + 1) as nat,
                                    n as nat,
                                );
                                assert(discover(sys@, old(self).found(), m as nat) == Ok::<
                                    Map<usize, ContainerView>,
                                    PassError,
                                >(self.found()));
                            }
                            return Err(e);
                        },
                        Ok(c) => {
                            let ghost before = self.submodule_container_map@;
                            self.submodule_container_map.insert(m, c);
                            proof {
                                assert(container_views(before.insert(m, c)) =~= container_views(
                                    before,
                                ).insert(m, c@));
                            }
                        },
                    }
                }
            }
            m += 1;
        }
        Ok(())
    }
}

} // verus!
