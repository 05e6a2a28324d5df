//! The dependency graph of one module, the visitor that builds it from the
//! module's body, and the two analyses that cut the graph into stages.

use crate::builder::SysBuilder;
use crate::error::PassError;
use crate::ir::{barrier_opcode, first_only, BlockIntrinsic, Opcode, SysView};
use crate::keys::{copy_keys, has_key};
use crate::levels::{
    absorb_operands, absorb_path, absorb_paths, covered, cut_ports, cuts_after, first_cut, forward,
    has_out, paths, paths_via, producers, CutView, NodeData,
};
use crate::stage::{ContainerView, StageTable, SubModule, SubModuleContainer, TableView};
use crate::staging::{enter, walk, walk_edges, walk_inputs, WalkFailure, WalkView};
use vstd::prelude::*;
use vstd::string::*;

verus! {

/// What the graph of one module holds.
pub struct GraphView {
    /// The dependencies, in the order they were added.
    pub edges: Seq<NodeData>,
    /// The expressions that take part in the dataflow.
    pub exprs: Seq<usize>,
    /// The expressions that hand data to other modules.
    pub callers: Seq<usize>,
    /// The barrier markers.
    pub barrier_exprs: Seq<usize>,
    /// The values that the barrier markers name.
    pub barriers: Seq<usize>,
    pub module_name: Seq<char>,
    /// The cuts, each with the values that cross it.
    pub cuts: Seq<CutView>,
    /// The module's inputs: its loads and FIFO pops.
    pub inputs: Seq<usize>,
    /// The module's outputs: what it pushes or stores.
    pub outputs: Seq<usize>,
    /// The stages, found by key.
    pub table: TableView,
    /// The key of the stage at each level.
    pub order: Seq<usize>,
}

/// The operands of `k` that `k` depends on in the graph: none for a push or
/// a store, the base alone for a slice, every operand otherwise.
pub open spec fn edge_sources(sv: SysView, k: usize) -> Seq<usize> {
    let op = sv.opcode(k);
    if op == Opcode::FIFOPush || op == Opcode::Store {
        Seq::empty()
    } else if op == Opcode::Slice {
        first_only(sv.operands(k))
    } else {
        sv.operands(k)
    }
}

/// One edge from each of `sources` to `child`, in order.
pub open spec fn edges_to(sources: Seq<usize>, child: usize) -> Seq<NodeData> {
    Seq::new(sources.len(), |i: int| NodeData { mom: sources[i], child })
}

impl GraphView {
    /// The graph without anything in it.
    pub open spec fn empty() -> GraphView {
        GraphView {
            edges: Seq::empty(),
            exprs: Seq::empty(),
            callers: Seq::empty(),
            barrier_exprs: Seq::empty(),
            barriers: Seq::empty(),
            module_name: Seq::empty(),
            cuts: Seq::empty(),
            inputs: Seq::empty(),
            outputs: Seq::empty(),
            table: TableView { keys: Seq::empty(), items: Seq::empty() },
            order: Seq::empty(),
        }
    }

    /// Edges lead from a key to a greater key of the system.
    pub open spec fn wf(self, sv: SysView) -> bool {
        forward(self.edges, sv.len())
    }

    pub open spec fn with_edges(self, edges: Seq<NodeData>) -> GraphView {
        GraphView { edges, ..self }
    }

    pub open spec fn with_cuts(self, cuts: Seq<CutView>) -> GraphView {
        GraphView { cuts, ..self }
    }

    pub open spec fn with_stages(self, table: TableView, order: Seq<usize>) -> GraphView {
        GraphView { table, order, ..self }
    }

    /// The graph after the expression `k` was visited. A barrier marker
    /// records the value it names; a bind or a call is kept for the rewrite;
    /// every other expression joins the dataflow with edges from its sources,
    /// as an input if it loads or pops, with its data operand as an output if
    /// it pushes or stores.
    pub open spec fn visit(self, sv: SysView, k: usize) -> GraphView {
        let op = sv.opcode(k);
        let ops = sv.operands(k);
        if op == barrier_opcode() {
            GraphView {
                barriers: self.barriers.push(ops[0]),
                barrier_exprs: self.barrier_exprs.push(k),
                ..self
            }
        } else if op == Opcode::Bind || op == Opcode::AsyncCall {
            GraphView { callers: self.callers.push(k), ..self }
        } else {
            GraphView {
                exprs: self.exprs.push(k),
                callers: if op == Opcode::FIFOPush {
                    self.callers.push(k)
                } else {
                    self.callers
                },
                inputs: if op == Opcode::Load || op == Opcode::FIFOPop {
                    self.inputs.push(k)
                } else {
                    self.inputs
                },
                outputs: if op == Opcode::FIFOPush || op == Opcode::Store {
                    self.outputs.push(ops[1])
                } else {
                    self.outputs
                },
                edges: self.edges + edges_to(edge_sources(sv, k), k),
                ..self
            }
        }
    }

    /// The graph after the first `n` expressions of `body` were visited, in order.
    pub open spec fn visit_all(self, sv: SysView, body: Seq<usize>, n: nat) -> GraphView
        decreases n,
    {
        if n == 0 {
            self
        } else {
            self.visit_all(sv, body, (n - 1) as nat).visit(sv, body[n - 1])
        }
    }

    /// The cuts that the barrier values open, after those already there.
    pub open spec fn barrier_levels(self, sv: SysView) -> Seq<CutView> {
        cuts_after(self.cuts, self.edges, sv, self.exprs, self.barriers, self.barriers.len())
    }

    /// The state of the stage walk before its first step.
    pub open spec fn walk_start(self) -> WalkView {
        WalkView { level: 0, table: self.table, order: self.order, used: Seq::empty() }
    }

    /// The state of the stage walk after its last step, or how it gave up:
    /// for want of an input where there are barrier values, at a node that
    /// is not recorded, at a level that has no stage, or at a cut whose key
    /// has a stage already.
    pub open spec fn submodules(self, sv: SysView) -> Result<WalkView, WalkFailure> {
        if self.inputs.len() == 0 && self.barriers.len() > 0 {
            Err(WalkFailure { error: PassError::MissingInput, state: self.walk_start() })
        } else {
            walk_inputs(
                self.edges,
                sv.len(),
                self.cuts,
                self.exprs,
                self.inputs,
                self.outputs,
                self.walk_start(),
                self.inputs.len(),
            )
        }
    }
}

/// Visiting an expression of a well-formed system keeps the graph well formed.
pub proof fn lemma_visit_wf(g: GraphView, sv: SysView, k: usize)
    requires
        g.wf(sv),
        sv.wf(),
        sv.is_expr(k),
    ensures
        g.visit(sv, k).wf(sv),
{
    let h = g.visit(sv, k);
    assert(sv.node_ok(k));
    let src = edge_sources(sv, k);
    let add = edges_to(src, k);
    assert forall|i: int| 0 <= i < h.edges.len() implies (#[trigger] h.edges[i]).mom
        < h.edges[i].child < sv.len() by {
        if i < g.edges.len() {
            assert(h.edges[i] == g.edges[i]);
        } else if h.edges =~= g.edges {
        } else {
            let j = i - g.edges.len();
            assert(h.edges[i] == add[j]);
            assert(sv.opcode(k) != Opcode::Bind);
            assert(src[j] == sv.operands(k)[j]);
        }
    }
}

struct Cut {
    key: usize,
    ports: Vec<usize>,
}

impl View for Cut {
    type V = CutView;

    closed spec fn view(&self) -> CutView {
        CutView { key: self.key, ports: self.ports@ }
    }
}

/// The dependency graph of one module and what the analyses derive from it.
pub struct DependencyGraph {
    adjacency: Vec<NodeData>,
    expr_hashmap: Vec<usize>,
    caller_expr: Vec<usize>,
    barrier_expr: Vec<usize>,
    barrier_list: Vec<usize>,
    current_module_name: String,
    submodule_barrier_map: Vec<Cut>,
    module_ports: Vec<usize>,
    module_outputs: Vec<usize>,
    submodule_map: StageTable,
    submodule_order: Vec<usize>,
}

impl View for DependencyGraph {
    type V = GraphView;

    closed spec fn view(&self) -> GraphView {
        GraphView {
            edges: self.adjacency@,
            exprs: self.expr_hashmap@,
            callers: self.caller_expr@,
            barrier_exprs: self.barrier_expr@,
            barriers: self.barrier_list@,
            module_name: self.current_module_name@,
            cuts: Seq::new(
                self.submodule_barrier_map@.len(),
                |i: int| self.submodule_barrier_map@[i]@,
            ),
            inputs: self.module_ports@,
            outputs: self.module_outputs@,
            table: self.submodule_map@,
            order: self.submodule_order@,
        }
    }
}

impl Default for DependencyGraph {
    fn default() -> (r: Self)
        ensures
            r@ == GraphView::empty(),
    {
        Self::new()
    }
}

impl DependencyGraph {
    /// A graph without anything in it.
    pub fn new() -> (r: Self)
        ensures
            r@ == GraphView::empty(),
    {
        let r = DependencyGraph {
            adjacency: Vec::new(),
            expr_hashmap: Vec::new(),
            caller_expr: Vec::new(),
            barrier_expr: Vec::new(),
            barrier_list: Vec::new(),
            current_module_name: String::new(),
            submodule_barrier_map: Vec::new(),
            module_ports: Vec::new(),
            module_outputs: Vec::new(),
            submodule_map: StageTable::new(),
            submodule_order: Vec::new(),
        };
        assert(r@.cuts =~= Seq::empty());
        assert(r@.table.keys =~= Seq::empty());
        assert(r@.table.items =~= Seq::empty());
        r
    }

    /// Names the module that the graph is about.
    pub fn set_current_module_name(&mut self, name: String)
        ensures
            final(self)@ == (GraphView { module_name: name@, ..old(self)@ }),
    {
        self.current_module_name = name;
    }

    /// Adds the dependency of `child` on `mom`.
    pub fn add_edge(&mut self, mom: usize, child: usize)
        ensures
            final(self)@ == old(self)@.with_edges(old(self)@.edges.push(NodeData { mom, child })),
    {
        self.adjacency.push(NodeData { mom: mom, child: child });
    }
}


/// Does every edge lead from a key to a greater key below `bound`?
pub fn edges_lead_up(edges: &Vec<NodeData>, bound: usize) -> (r: bool)
    ensures
        r == forward(edges@, bound as nat),
{
    let mut i: usize = 0;
    while i < edges.len()
        invariant
            i <= edges@.len(),
            forall|j: int| 0 <= j < i ==> (#[trigger] edges@[j]).mom < edges@[j].child < bound,
        decreases edges@.len() - i,
    {
        if !(edges[i].mom < edges[i].child && edges[i].child < bound) {
            return false;
        }
        i += 1;
    }
    true
}

impl DependencyGraph {
    /// Can the analyses run on this graph for `sys`: does every edge lead
    /// from a key to a greater key of the system? A graph that the visitor
    /// built from a well-formed system is such a graph.
    pub fn is_well_formed(&self, sys: &SysBuilder) -> (r: bool)
        ensures
            r == self@.wf(sys@),
    {
        edges_lead_up(&self.adjacency, sys.len())
    }

    /// The dependencies, in the order they were added.
    pub fn adjacency(&self) -> (r: &Vec<NodeData>)
        ensures
            r@ == self@.edges,
    {
        &self.adjacency
    }

    /// The keys of the expressions that take part in the dataflow.
    pub fn expr_hashmap(&self) -> (r: &Vec<usize>)
        ensures
            r@ == self@.exprs,
    {
        &self.expr_hashmap
    }

    /// The keys of the expressions that hand data to other modules.
    pub fn caller_expr(&self) -> (r: &Vec<usize>)
        ensures
            r@ == self@.callers,
    {
        &self.caller_expr
    }

    /// The keys of the barrier markers.
    pub fn barrier_expr(&self) -> (r: &Vec<usize>)
        ensures
            r@ == self@.barrier_exprs,
    {
        &self.barrier_expr
    }

    /// The keys of the values that the barrier markers name.
    pub fn barrier_list(&self) -> (r: &Vec<usize>)
        ensures
            r@ == self@.barriers,
    {
        &self.barrier_list
    }

    /// The keys of the module's inputs.
    pub fn module_ports(&self) -> (r: &Vec<usize>)
        ensures
            r@ == self@.inputs,
    {
        &self.module_ports
    }

    /// The keys of the module's outputs.
    pub fn module_outputs(&self) -> (r: &Vec<usize>)
        ensures
            r@ == self@.outputs,
    {
        &self.module_outputs
    }

    /// The number of cuts.
    pub fn cut_count(&self) -> (r: usize)
        ensures
            r == self@.cuts.len(),
    {
        self.submodule_barrier_map.len()
    }

    /// The barrier value that opened the cut at place `i`.
    pub fn cut_key(&self, i: usize) -> (r: usize)
        requires
            i < self@.cuts.len(),
        ensures
            r == self@.cuts[i as int].key,
    {
        self.submodule_barrier_map[i].key
    }

    /// The values that cross the cut at place `i`.
    pub fn cut_ports(&self, i: usize) -> (r: &Vec<usize>)
        requires
            i < self@.cuts.len(),
        ensures
            r@ == self@.cuts[i as int].ports,
    {
        &self.submodule_barrier_map[i].ports
    }

    /// The stages, found by key.
    pub fn submodule_map(&self) -> (r: &StageTable)
        ensures
            r@ == self@.table,
    {
        &self.submodule_map
    }

    /// The key of the stage at each level.
    pub fn submodule_order(&self) -> (r: &Vec<usize>)
        ensures
            r@ == self@.order,
    {
        &self.submodule_order
    }

    /// Hands the stages and the expressions kept for the rewrite over as the
    /// container of the module named `name`.
    pub fn into_container(self, name: String) -> (r: SubModuleContainer)
        ensures
            r@ == (ContainerView {
                name: name@,
                table: self@.table,
                order: self@.order,
                callers: self@.callers,
                barrier_exprs: self@.barrier_exprs,
            }),
    {
        SubModuleContainer::assemble(
            name,
            self.submodule_map,
            self.submodule_order,
            self.caller_expr,
            self.barrier_expr,
        )
    }
}

/// The contents of a list of key lists.
pub open spec fn lists(v: Seq<Vec<usize>>) -> Seq<Seq<usize>> {
    Seq::new(v.len(), |i: int| v[i]@)
}

/// Does one of the first `n` edges lead out of `v`?
pub open spec fn has_out_before(edges: Seq<NodeData>, v: usize, n: int) -> bool {
    exists|j: int| 0 <= j < n && (#[trigger] edges[j]).mom == v
}

/// Collects the paths that leave `current`, as `paths` lists them.
pub fn dfs_paths(
    edges: &Vec<NodeData>,
    bound: usize,
    current: usize,
    path: &mut Vec<usize>,
    all_paths: &mut Vec<Vec<usize>>,
)
    requires
        forward(edges@, bound as nat),
    ensures
        final(path)@ == old(path)@,
        lists(final(all_paths)@) == lists(old(all_paths)@) + paths(
            edges@,
            bound as nat,
            current,
            old(path)@,
        ),
    decreases bound - current,
{
    path.push(current);
    let ghost p = path@;
    let ghost base = lists(all_paths@);
    let mut has_neighbors = false;
    let mut i: usize = 0;
    assert(lists(all_paths@) + paths_via(edges@, bound as nat, current, p, 0) =~= base
        + paths_via(edges@, bound as nat, current, p, 0));
    while i < edges.len()
        invariant
            i <= edges.len(),
            forward(edges@, bound as nat),
            path@ == p,
            has_neighbors == has_out_before(edges@, current, i as int),
            !has_neighbors ==> lists(all_paths@) == base,
            lists(all_paths@) + paths_via(edges@, bound as nat, current, p, i as nat) == base
                + paths_via(edges@, bound as nat, current, p, 0),
        decreases edges.len() - i,
    {
        let e = edges[i];
        let ghost before = lists(all_paths@);
        let ghost rest = paths_via(edges@, bound as nat, current, p, (i + 1) as nat);
        assert(e == edges@[i as int]);
        if e.mom == current {
            has_neighbors = true;
            dfs_paths(edges, bound, e.child, path, all_paths);
            proof {
                let here = paths(edges@, bound as nat, e.child, p);
                assert(paths_via(edges@, bound as nat, current, p, i as nat) == here + rest);
                assert((before + here) + rest =~= before + (here + rest));
            }
        } else {
            proof {
                assert(paths_via(edges@, bound as nat, current, p, i as nat)
                    == Seq::<Seq<usize>>::empty() + rest);
                assert(Seq::<Seq<usize>>::empty() + rest =~= rest);
                if has_out_before(edges@, current, i + 1) {
                    let j = choose|j: int| 0 <= j < i + 1 && (#[trigger] edges@[j]).mom == current;
                    assert(has_out_before(edges@, current, i as int));
                }
            }
        }
        i += 1;
    }
    proof {
        assert(paths_via(edges@, bound as nat, current, p, i as nat) =~= Seq::<Seq<usize>>::empty());
        assert(lists(all_paths@) + Seq::<Seq<usize>>::empty() =~= lists(all_paths@));
        assert(has_neighbors == has_out(edges@, current)) by {
            if has_out(edges@, current) {
                let j = choose|j: int| 0 <= j < edges@.len() && (#[trigger] edges@[j]).mom == current;
                assert(has_out_before(edges@, current, i as int));
            }
        }
    }
    if !has_neighbors && path.len() > 1 {
        let done = copy_keys(path);
        let ghost before = all_paths@;
        all_paths.push(done);
        assert(lists(all_paths@) =~= lists(before) + seq![p]);
    } else {
        assert(lists(all_paths@) + Seq::<Seq<usize>>::empty() =~= lists(all_paths@));
    }
    path.pop();
    assert(path@ =~= old(path)@);
}

/// The operands of `k` that produce what `k` consumes.
fn producers_of(sys: &SysBuilder, exprs: &Vec<usize>, k: usize) -> (r: Vec<usize>)
    ensures
        r@ == producers(sys@, exprs@, k),
{
    if !has_key(exprs, k) || !sys.is_expr(k) {
        return Vec::new();
    }
    let op = sys.opcode(k);
    if op == Opcode::FIFOPush || op == Opcode::Bind || op == Opcode::AsyncCall {
        Vec::new()
    } else if op == Opcode::Slice {
        let mut r: Vec<usize> = Vec::new();
        if sys.operand_count(k) > 0 {
            r.push(sys.operand(k, 0));
        }
        assert(r@ =~= first_only(sys@.operands(k)));
        r
    } else {
        sys.operands(k)
    }
}

/// Absorbs into `ports` what the nodes of `path` need from upstream.
fn absorb_one_path(
    sys: &SysBuilder,
    exprs: &Vec<usize>,
    path: &Vec<usize>,
    ports: &mut Vec<usize>,
)
    ensures
        final(ports)@ == absorb_path(old(ports)@, sys@, exprs@, path@, path@.len()),
{
    let mut n: usize = 1;
    if path.len() <= 1 {
        return ;
    }
    while n < path.len()
        invariant
            1 <= n <= path.len(),
            ports@ == absorb_path(old(ports)@, sys@, exprs@, path@, n as nat),
        decreases path.len() - n,
    {
        let ops = producers_of(sys, exprs, path[n]);
        let ghost start = ports@;
        let mut j: usize = 0;
        while j < ops.len()
            invariant
                j <= ops.len(),
                ports@ == absorb_operands(start, path@, ops@, j as nat),
            decreases ops.len() - j,
        {
            let o = ops[j];
            if !has_key(path, o) && !has_key(ports, o) {
                ports.push(o);
            }
            j += 1;
        }
        n += 1;
    }
}

impl DependencyGraph {
    /// Finds, for every barrier value that no earlier cut carries, the values
    /// that have to cross the cut at that value.
    pub fn gather_barrier_level(&mut self, sys: &SysBuilder)
        requires
            old(self)@.wf(sys@),
        ensures
            final(self)@ == old(self)@.with_cuts(old(self)@.barrier_levels(sys@)),
            final(self)@.wf(sys@),
    {
        let bound = sys.len();
        let mut n: usize = 0;
        while n < self.barrier_list.len()
            invariant
                n <= self.barrier_list@.len(),
                bound == sys@.len(),
                old(self)@.wf(sys@),
                self@ == old(self)@.with_cuts(
                    cuts_after(
                        old(self)@.cuts,
                        old(self)@.edges,
                        sys@,
                        old(self)@.exprs,
                        old(self)@.barriers,
                        n as nat,
                    ),
                ),
            decreases self.barrier_list@.len() - n,
        {
            let b = self.barrier_list[n];
            let mut is_covered = false;
            let mut c: usize = 0;
            while c < self.submodule_barrier_map.len()
                invariant
                    c <= self.submodule_barrier_map@.len(),
                    is_covered == exists|j: int|
                        0 <= j < c && (#[trigger] self@.cuts[j]).ports.contains(b),
                decreases self.submodule_barrier_map@.len() - c,
            {
                let hit = has_key(&self.submodule_barrier_map[c].ports, b);
                assert(self@.cuts[c as int].ports == self.submodule_barrier_map@[c as int].ports@);
                if hit {
                    is_covered = true;
                }
                c += 1;
            }
            assert(is_covered == covered(self@.cuts, b));
            if !is_covered {
                let mut all_paths: Vec<Vec<usize>> = Vec::new();
                let mut path: Vec<usize> = Vec::new();
                dfs_paths(&self.adjacency, bound, b, &mut path, &mut all_paths);
                let ghost all = lists(all_paths@);
                assert(all =~= paths(self@.edges, bound as nat, b, Seq::empty())) by {
                    assert(lists(Seq::<Vec<usize>>::empty()) =~= Seq::<Seq<usize>>::empty());
                    assert(path@ =~= Seq::<usize>::empty());
                }
                let mut ports: Vec<usize> = Vec::new();
                ports.push(b);
                assert(ports@ =~= seq![b]);
                let mut k: usize = 0;
                while k < all_paths.len()
                    invariant
                        k <= all_paths@.len(),
                        all == lists(all_paths@),
                        ports@ == absorb_paths(seq![b], sys@, old(self)@.exprs, all, k as nat),
                        self.expr_hashmap@ == old(self)@.exprs,
                    decreases all_paths@.len() - k,
                {
                    assert(all[k as int] == all_paths@[k as int]@);
                    absorb_one_path(sys, &self.expr_hashmap, &all_paths[k], &mut ports);
                    k += 1;
                }
                let ghost before = self@.cuts;
                self.submodule_barrier_map.push(Cut { key: b, ports });
                assert(self@.cuts =~= before.push(
                    CutView { key: b, ports: cut_ports(old(self)@.edges, sys@, old(self)@.exprs, b) },
                ));
            }
            n += 1;
        }
    }
}

/// The views of a list of cuts.
spec fn cut_views(v: Seq<Cut>) -> Seq<CutView> {
    Seq::new(v.len(), |i: int| v[i]@)
}

/// The place of the first cut that carries `v`, or `cuts.len()`.
fn find_cut(cuts: &Vec<Cut>, v: usize) -> (r: usize)
    ensures
        r == first_cut(cut_views(cuts@), v, 0),
        r <= cuts@.len(),
{
    let mut i: usize = 0;
    while i < cuts.len() && !has_key(&cuts[i].ports, v)
        invariant
            i <= cuts@.len(),
            first_cut(cut_views(cuts@), v, 0) == first_cut(cut_views(cuts@), v, i as nat),
        decreases cuts@.len() - i,
    {
        assert(cut_views(cuts@)[i as int].ports == cuts@[i as int].ports@);
        i += 1;
    }
    proof {
        if i < cuts@.len() {
            assert(cut_views(cuts@)[i as int].ports == cuts@[i as int].ports@);
        }
    }
    i
}

/// Once the walk has failed it stays failed.
proof fn lemma_walk_edges_none(
    edges: Seq<NodeData>,
    bound: nat,
    cuts: Seq<CutView>,
    exprs: Seq<usize>,
    outputs: Seq<usize>,
    v: usize,
    below: usize,
    i: nat,
    w: WalkFailure,
)
    ensures
        walk_edges(edges, bound, cuts, exprs, outputs, v, below, i, Err(w)) == Err::<
            WalkView,
            WalkFailure,
        >(w),
    decreases edges.len() - i,
{
    if i < edges.len() {
        lemma_walk_edges_none(edges, bound, cuts, exprs, outputs, v, below, i + 1, w);
    }
}

/// The place in `table` of the stage at `level`, where the level has one.
fn current_stage(level: usize, table: &StageTable, order: &Vec<usize>, Ghost(used): Ghost<
    Seq<usize>,
>) -> (r: Option<usize>)
    ensures
        match r {
            Some(i) => (WalkView { level, table: table@, order: order@, used }).current() == Some(
                i as int,
            ) && i < table@.items.len() && level < order@.len(),
            None => (WalkView { level, table: table@, order: order@, used }).current().is_none(),
        },
{
    if level >= order.len() {
        return None;
    }
    let i = table.find(order[level]);
    if i < table.len() {
        Some(i)
    } else {
        None
    }
}

fn walk_node(
    edges: &Vec<NodeData>,
    bound: usize,
    cuts: &Vec<Cut>,
    exprs: &Vec<usize>,
    outputs: &Vec<usize>,
    v: usize,
    level: &mut usize,
    table: &mut StageTable,
    order: &mut Vec<usize>,
    used: &mut Vec<usize>,
) -> (r: Result<(), PassError>)
    requires
        forward(edges@, bound as nat),
    ensures
        match r {
            Ok(()) => walk(
                edges@,
                bound as nat,
                cut_views(cuts@),
                exprs@,
                outputs@,
                v,
                WalkView {
                    level: *old(level),
                    table: old(table)@,
                    order: old(order)@,
                    used: old(used)@,
                },
            ) == Ok::<WalkView, WalkFailure>(
                WalkView {
                    level: *final(level),
                    table: final(table)@,
                    order: final(order)@,
                    used: final(used)@,
                },
            ),
            Err(e) => walk(
                edges@,
                bound as nat,
                cut_views(cuts@),
                exprs@,
                outputs@,
                v,
                WalkView {
                    level: *old(level),
                    table: old(table)@,
                    order: old(order)@,
                    used: old(used)@,
                },
            ) == Err::<WalkView, WalkFailure>(
                WalkFailure {
                    error: e,
                    state: WalkView {
                        level: *final(level),
                        table: final(table)@,
                        order: final(order)@,
                        used: final(used)@,
                    },
                },
            ),
        },
    decreases bound - v,
{
    let ghost cv = cut_views(cuts@);
    let ghost st0 = WalkView {
        level: *old(level),
        table: old(table)@,
        order: old(order)@,
        used: old(used)@,
    };
    if !has_key(exprs, v) {
        return Err(PassError::DanglingKey);
    }
    let ci = match current_stage(*level, table, order, Ghost(used@)) {
        Some(i) => i,
        None => {
            return Err(PassError::MissingStage);
        },
    };
    let h = find_cut(cuts, v);
    let levels = order.len();
    let below: usize;
    if h >= cuts.len() {
        below = *level;
    } else if table.at(ci).buffered_barriers().len() == 0 {
        assert(cv[h as int] == cuts@[h as int]@);
        let key = cuts[h].key;
        if table.find(key) < table.len() {
            return Err(PassError::StageTaken);
        }
        below = *level + 1;
        table.close_at(ci, copy_keys(&cuts[h].ports));
        table.put(key, SubModule::new(copy_keys(&cuts[h].ports)));
        if below < order.len() {
            order[below] = key;
        } else {
            order.push(key);
        }
    } else if has_key(table.at(ci).buffered_ports(), v) {
        below = if *level == 0 {
            0
        } else {
            *level - 1
        };
    } else if has_key(table.at(ci).buffered_barriers(), v) {
        below = *level + 1;
    } else {
        below = *level;
    }
    let ghost s1 = WalkView { level: *level, table: table@, order: order@, used: used@ };
    assert(enter(st0, cv, v) == Ok::<(WalkView, usize), PassError>((s1, below)));
    if !has_key(used, v) {
        let i = match current_stage(*level, table, order, Ghost(used@)) {
            Some(i) => i,
            None => {
                return Err(PassError::MissingStage);
            },
        };
        table.join_at(i, v);
        let ghost s2 = WalkView { level: *level, table: table@, order: order@, used: used@ };
        let mut j: usize = 0;
        assert(walk_edges(edges@, bound as nat, cv, exprs@, outputs@, v, below, 0, Ok(s2)).is_err()
            ==> walk(edges@, bound as nat, cv, exprs@, outputs@, v, st0) == walk_edges(
            edges@,
            bound as nat,
            cv,
            exprs@,
            outputs@,
            v,
            below,
            0,
            Ok(s2),
        ));
        while j < edges.len()
            invariant
                j <= edges@.len(),
                st0 == (WalkView {
                    level: *old(level),
                    table: old(table)@,
                    order: old(order)@,
                    used: old(used)@,
                }),
                walk_edges(
                    edges@,
                    bound as nat,
                    cv,
                    exprs@,
                    outputs@,
                    v,
                    below,
                    0,
                    Ok(s2),
                ).is_err() ==> walk(edges@, bound as nat, cv, exprs@, outputs@, v, st0)
                    == walk_edges(edges@, bound as nat, cv, exprs@, outputs@, v, below, 0, Ok(s2)),
                forward(edges@, bound as nat),
                cv == cut_views(cuts@),
                walk_edges(
                    edges@,
                    bound as nat,
                    cv,
                    exprs@,
                    outputs@,
                    v,
                    below,
                    j as nat,
                    Ok(WalkView { level: *level, table: table@, order: order@, used: used@ }),
                ) == walk_edges(edges@, bound as nat, cv, exprs@, outputs@, v, below, 0, Ok(s2)),
            decreases edges@.len() - j,
        {
            let e = edges[j];
            assert(e == edges@[j as int]);
            if e.mom == v {
                *level = below;
                match walk_node(
                    edges,
                    bound,
                    cuts,
                    exprs,
                    outputs,
                    e.child,
                    level,
                    table,
                    order,
                    used,
                ) {
                    Ok(()) => {},
                    Err(failure) => {
                        proof {
                            let w = WalkFailure {
                                error: failure,
                                state: WalkView {
                                    level: *level,
                                    table: table@,
                                    order: order@,
                                    used: used@,
                                },
                            };
                            lemma_walk_edges_none(
                                edges@,
                                bound as nat,
                                cv,
                                exprs@,
                                outputs@,
                                v,
                                below,
                                (j + 1) as nat,
                                w,
                            );
                            assert(walk_edges(
                                edges@,
                                bound as nat,
                                cv,
                                exprs@,
                                outputs@,
                                v,
                                below,
                                0,
                                Ok(s2),
                            ) == Err::<WalkView, WalkFailure>(w));
                        }
                        return Err(failure);
                    },
                }
            }
            j += 1;
        }
    }
    if has_key(outputs, v) {
        let i = match current_stage(*level, table, order, Ghost(used@)) {
            Some(i) => i,
            None => {
                return Err(PassError::MissingStage);
            },
        };
        if table.at(i).buffered_barriers().len() == 0 {
            table.close_at(i, copy_keys(outputs));
        }
    }
    used.push(v);
    Ok(())
}

impl DependencyGraph {
    /// Assigns every expression that the module's inputs reach to a stage,
    /// and every stage to a level. The stage at level 0 has the first
    /// input as its key, the stage that a cut opens the key of the cut.
    /// Fails where the module has barrier values and no input, where the
    /// walk reaches a node that is not recorded, where it comes to a level
    /// that has no stage, and where a cut would open a stage under a key
    /// that has a stage already; the stages are then left as the walk had
    /// them.
    pub fn gather_submodules(&mut self, sys: &SysBuilder) -> (r: Result<(), PassError>)
        requires
            old(self)@.wf(sys@),
        ensures
            match (r, old(self)@.submodules(sys@)) {
                (Ok(()), Ok(w)) => final(self)@ == old(self)@.with_stages(w.table, w.order),
                (Err(e), Err(w)) => e == w.error && final(self)@ == old(self)@.with_stages(
                    w.state.table,
                    w.state.order,
                ),
                _ => false,
            },
            r.is_ok() ==> final(self)@.wf(sys@),
    {
        let bound = sys.len();
        let mut used: Vec<usize> = Vec::new();
        let mut level: usize = 0;
        let ghost g = self@;
        let ghost cv = g.cuts;
        let mut n: usize = 0;
        assert(used@ =~= Seq::<usize>::empty());
        if self.module_ports.len() == 0 && self.barrier_list.len() > 0 {
            return Err(PassError::MissingInput);
        }
        while n < self.module_ports.len()
            invariant
                n <= self.module_ports@.len(),
                bound == sys@.len(),
                g == old(self)@,
                g.wf(sys@),
                !(g.inputs.len() == 0 && g.barriers.len() > 0),
                self@ == g.with_stages(self@.table, self@.order),
                cv == cut_views(self.submodule_barrier_map@),
                walk_inputs(
                    g.edges,
                    bound as nat,
                    g.cuts,
                    g.exprs,
                    g.inputs,
                    g.outputs,
                    g.walk_start(),
                    n as nat,
                ) == Ok::<WalkView, WalkFailure>(
                    WalkView { level, table: self@.table, order: self@.order, used: used@ },
                ),
            decreases self.module_ports@.len() - n,
        {
            let p = self.module_ports[n];
            if self.submodule_map.len() == 0 {
                self.submodule_map.put(p, SubModule::new(copy_keys(&self.module_ports)));
                if self.submodule_order.len() > 0 {
                    self.submodule_order[0] = p;
                } else {
                    self.submodule_order.push(p);
                }
            }
            level = 0;
            match walk_node(
                &self.adjacency,
                bound,
                &self.submodule_barrier_map,
                &self.expr_hashmap,
                &self.module_outputs,
                p,
                &mut level,
                &mut self.submodule_map,
                &mut self.submodule_order,
                &mut used,
            ) {
                Ok(()) => {},
                Err(e) => {
                    proof {
                        lemma_walk_inputs_none(
                            g.edges,
                            bound as nat,
                            g.cuts,
                            g.exprs,
                            g.inputs,
                            g.outputs,
                            g.walk_start(),
                            (n + 1) as nat,
                            g.inputs.len(),
                        );
                    }
                    return Err(e);
                },
            }
            n += 1;
        }
        Ok(())
    }
}

/// If the walk fails after `n` inputs, it has failed the same way after any
/// greater number.
proof fn lemma_walk_inputs_none(
    edges: Seq<NodeData>,
    bound: nat,
    cuts: Seq<CutView>,
    exprs: Seq<usize>,
    inputs: Seq<usize>,
    outputs: Seq<usize>,
    st: WalkView,
    n: nat,
    m: nat,
)
    requires
        n <= m,
        walk_inputs(edges, bound, cuts, exprs, inputs, outputs, st, n).is_err(),
    ensures
        walk_inputs(edges, bound, cuts, exprs, inputs, outputs, st, m) == walk_inputs(
            edges,
            bound,
            cuts,
            exprs,
            inputs,
            outputs,
            st,
            n,
        ),
    decreases m,
{
    if n < m {
        lemma_walk_inputs_none(edges, bound, cuts, exprs, inputs, outputs, st, n, (m - 1) as nat);
    }
}

/// Builds the dependency graph of a module from the expressions of its body.
pub struct GraphVisitor<'sys> {
    pub graph: DependencyGraph,
    pub sys: &'sys SysBuilder,
}

impl<'sys> GraphVisitor<'sys> {
    /// A visitor of `sys` with an empty graph.
    pub fn new(sys: &'sys SysBuilder) -> (r: Self)
        ensures
            r.graph@ == GraphView::empty(),
            r.sys@ == sys@,
    {
        Self { graph: DependencyGraph::new(), sys }
    }

    /// Records the expression `expr` in the graph. Always `None`: the visit
    /// never ends a traversal early.
    pub fn visit_expr(&mut self, expr: usize) -> (r: Option<()>)
        requires
            old(self).sys@.wf(),
            old(self).sys@.is_expr(expr),
        ensures
            r.is_none(),
            final(self).sys@ == old(self).sys@,
            final(self).graph@ == old(self).graph@.visit(old(self).sys@, expr),
    {
        let sys = self.sys;
        let op = sys.opcode(expr);
        proof {
            assert(sys@.node_ok(expr));
        }
        let is_barrier = op == (Opcode::BlockIntrinsic { intrinsic: BlockIntrinsic::Barrier });
        let is_output = op == Opcode::Bind || op == Opcode::AsyncCall;
        if is_barrier {
            self.graph.barrier_list.push(sys.operand(expr, 0));
            self.graph.barrier_expr.push(expr);
            return None;
        }
        if op == Opcode::FIFOPush || is_output {
            self.graph.caller_expr.push(expr);
        }
        if is_output {
            return None;
        }
        self.graph.expr_hashmap.push(expr);
        if op == Opcode::Load || op == Opcode::FIFOPop {
            self.graph.module_ports.push(expr);
        }
        let ghost before = self.graph.adjacency@;
        let ghost src = edge_sources(sys@, expr);
        if op == Opcode::FIFOPush || op == Opcode::Store {
            self.graph.module_outputs.push(sys.operand(expr, 1));
            assert(before + edges_to(src, expr) =~= before);
        } else if op == Opcode::Slice {
            self.graph.add_edge(sys.operand(expr, 0), expr);
            assert(before + edges_to(src, expr) =~= before.push(
                NodeData { mom: sys@.operands(expr)[0], child: expr },
            ));
        } else {
            let n = sys.operand_count(expr);
            let mut i: usize = 0;
            let ghost start = self.graph@;
            while i < n
                invariant
                    i <= n,
                    n == sys@.operands(expr).len(),
                    sys@.is_expr(expr),
                    src == sys@.operands(expr),
                    self.sys@ == sys@,
                    self.graph@ == start.with_edges(before + edges_to(src, expr).take(i as int)),
                decreases n - i,
            {
                self.graph.add_edge(sys.operand(expr, i), expr);
                assert(before + edges_to(src, expr).take(i + 1) =~= (before + edges_to(
                    src,
                    expr,
                ).take(i as int)).push(NodeData { mom: src[i as int], child: expr })) by {
                    assert(edges_to(src, expr).take(i + 1) =~= edges_to(src, expr).take(
                        i as int,
                    ).push(NodeData { mom: src[i as int], child: expr }));
                }
                i += 1;
            }
            assert(edges_to(src, expr).take(n as int) =~= edges_to(src, expr));
        }
        None
    }

    /// Records every expression of the body of `module`, in program order.
    pub fn visit_module(&mut self, module: usize) -> (r: Option<()>)
        requires
            old(self).sys@.wf(),
            old(self).sys@.is_module(module),
        ensures
            r.is_none(),
            final(self).sys@ == old(self).sys@,
            final(self).graph@ == old(self).graph@.visit_all(
                old(self).sys@,
                old(self).sys@.body(module),
                old(self).sys@.body(module).len(),
            ),
    {
        let sys = self.sys;
        let n = sys.body_len(module);
        let mut i: usize = 0;
        while i < n
            invariant
                i <= n,
                n == sys@.body(module).len(),
                sys@.wf(),
                sys@.is_module(module),
                self.sys@ == sys@,
                sys@ == old(self).sys@,
                self.graph@ == old(self).graph@.visit_all(sys@, sys@.body(module), i as nat),
            decreases n - i,
        {
            let k = sys.body_at(module, i);
            proof {
                assert(sys@.node_ok(module));
                assert(sys@.is_expr(sys@.body(module)[i as int]));
            }
            self.visit_expr(k);
            i += 1;
        }
        None
    }
}

/// Visiting a body of a well-formed system keeps the graph well formed.
pub proof fn lemma_visit_all_wf(g: GraphView, sv: SysView, body: Seq<usize>, n: nat)
    requires
        g.wf(sv),
        sv.wf(),
        n <= body.len(),
        forall|i: int| 0 <= i < body.len() ==> sv.is_expr(#[trigger] body[i]),
    ensures
        g.visit_all(sv, body, n).wf(sv),
    decreases n,
{
    if n > 0 {
        lemma_visit_all_wf(g, sv, body, (n - 1) as nat);
        lemma_visit_wf(g.visit_all(sv, body, (n - 1) as nat), sv, body[n - 1]);
    }
}

} // verus!
