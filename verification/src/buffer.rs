//! The single-cut form of the analysis: everything downstream of one
//! barrier value goes to one buffered module, whose ports are the values
//! that the downstream expressions need from upstream.

use crate::builder::{port_views, PortInfo, SysBuilder};
use crate::discovery::is_harness;
use crate::emission::{failed, Failure};
use crate::error::PassError;
use crate::graph::{lists, dfs_paths};
use crate::ir::{barrier_opcode, BlockIntrinsic, DataType, Opcode, PortView, SysView};
use crate::keys::has_key;
use crate::levels::{absorb_operands, forward, paths, NodeData};
use crate::text::{buffered_name, buffered_port_name};
use vstd::prelude::*;
use vstd::string::*;

verus! {

/// `s` with `k` appended unless it is there already.
pub open spec fn with_key(s: Seq<usize>, k: usize) -> Seq<usize> {
    if s.contains(k) {
        s
    } else {
        s.push(k)
    }
}

/// What the graph of the single-cut analysis holds.
pub struct BufferView {
    /// The dependencies, in the order they were added.
    pub edges: Seq<NodeData>,
    /// The expressions that have an operand.
    pub exprs: Seq<usize>,
    /// The values that the buffered module reads: the barrier values, and
    /// what the expressions downstream of them need from upstream.
    pub buffered_nodes: Seq<usize>,
    /// The expressions downstream of a barrier value that compute.
    pub buffered_expr: Seq<usize>,
    /// The expressions downstream of a barrier value that hand data to
    /// another module.
    pub moved_expr: Seq<usize>,
}

/// Does an expression with opcode `op` hand data to another module?
pub open spec fn is_caller_op(op: Opcode) -> bool {
    op == Opcode::FIFOPush || op == Opcode::Bind || op == Opcode::AsyncCall
}

impl BufferView {
    /// The graph without anything in it.
    pub open spec fn empty() -> BufferView {
        BufferView {
            edges: Seq::empty(),
            exprs: Seq::empty(),
            buffered_nodes: Seq::empty(),
            buffered_expr: Seq::empty(),
            moved_expr: Seq::empty(),
        }
    }

    /// The graph after the expression `k` was visited: one edge from each
    /// of its operands, and `k` among the expressions if it has an operand.
    pub open spec fn visit(self, sv: SysView, k: usize) -> BufferView {
        let ops = sv.operands(k);
        BufferView {
            edges: self.edges + Seq::new(ops.len(), |i: int| NodeData { mom: ops[i], child: k }),
            exprs: if ops.len() > 0 {
                with_key(self.exprs, k)
            } else {
                self.exprs
            },
            ..self
        }
    }

    /// The graph after the first `n` expressions of `body` were visited.
    pub open spec fn visit_all(self, sv: SysView, body: Seq<usize>, n: nat) -> BufferView
        decreases n,
    {
        if n == 0 {
            self
        } else {
            self.visit_all(sv, body, (n - 1) as nat).visit(sv, body[n - 1])
        }
    }

    /// The graph after the node `k` of `path` was sorted: a known
    /// expression that hands data to another module is moved; any other
    /// known expression is buffered, and each of its operands that is
    /// neither on the path nor read already becomes a value that the
    /// buffered module reads.
    pub open spec fn sort_node(self, sv: SysView, path: Seq<usize>, k: usize) -> BufferView {
        if !self.exprs.contains(k) || !sv.is_expr(k) {
            self
        } else if is_caller_op(sv.opcode(k)) {
            BufferView { moved_expr: with_key(self.moved_expr, k), ..self }
        } else {
            BufferView {
                buffered_expr: with_key(self.buffered_expr, k),
                buffered_nodes: absorb_operands(
                    self.buffered_nodes,
                    path,
                    sv.operands(k),
                    sv.operands(k).len(),
                ),
                ..self
            }
        }
    }

    /// The graph after the nodes at places 1 to `n - 1` of `path` were sorted.
    pub open spec fn sort_path(self, sv: SysView, path: Seq<usize>, n: nat) -> BufferView
        decreases n,
    {
        if n <= 1 {
            self
        } else {
            self.sort_path(sv, path, (n - 1) as nat).sort_node(sv, path, path[n - 1])
        }
    }

    /// The graph after the first `n` of `all` were sorted.
    pub open spec fn sort_paths(self, sv: SysView, all: Seq<Seq<usize>>, n: nat) -> BufferView
        decreases n,
    {
        if n == 0 {
            self
        } else {
            let p = all[n - 1];
            self.sort_paths(sv, all, (n - 1) as nat).sort_path(sv, p, p.len())
        }
    }

    /// The graph after the cut at the barrier value `b`: `b` is read by the
    /// buffered module, and every path that leaves `b` is sorted.
    pub open spec fn cut_at(self, sv: SysView, b: usize) -> BufferView {
        let all = paths(self.edges, sv.len(), b, Seq::empty());
        (BufferView { buffered_nodes: self.buffered_nodes.push(b), ..self }).sort_paths(
            sv,
            all,
            all.len(),
        )
    }

    /// The ports of the buffered module: one for each value it reads, named
    /// after the value's key, a signed integer of 32 bits.
    pub open spec fn buffer_ports(self) -> Seq<PortView> {
        Seq::new(
            self.buffered_nodes.len(),
            |i: int| PortView { name: buffered_name(self.buffered_nodes[i]), dtype: DataType::Int(32) },
        )
    }
}

/// The expression `k` was sorted: it is buffered or moved.
pub open spec fn sorted(g: BufferView, k: usize) -> bool {
    g.buffered_expr.contains(k) || g.moved_expr.contains(k)
}

/// `k` stands on `path` at one of the places 1 to `n - 1`.
pub open spec fn on_after(path: Seq<usize>, n: nat, k: usize) -> bool {
    exists|i: int| 1 <= i < n && #[trigger] path[i] == k
}

/// A key that is added is there, besides what was there.
pub proof fn lemma_with_key(s: Seq<usize>, k: usize, x: usize)
    ensures
        with_key(s, k).contains(x) <==> s.contains(x) || x == k,
{
    crate::levels::lemma_push_contains(s, k, x);
}

/// Sorting a node sorts that node, if it is a recorded expression, and
/// nothing else.
pub proof fn lemma_sort_node(g: BufferView, sv: SysView, path: Seq<usize>, k0: usize, k: usize)
    ensures
        g.sort_node(sv, path, k0).exprs == g.exprs,
        sorted(g.sort_node(sv, path, k0), k) <==> sorted(g, k) || (k == k0 && g.exprs.contains(k)
            && sv.is_expr(k)),
{
    lemma_with_key(g.buffered_expr, k0, k);
    lemma_with_key(g.moved_expr, k0, k);
}

/// Sorting a path sorts the recorded expressions on it, after its first node.
pub proof fn lemma_sort_path(g: BufferView, sv: SysView, path: Seq<usize>, n: nat, k: usize)
    requires
        n <= path.len(),
    ensures
        g.sort_path(sv, path, n).exprs == g.exprs,
        sorted(g.sort_path(sv, path, n), k) <==> sorted(g, k) || (g.exprs.contains(k)
            && sv.is_expr(k) && on_after(path, n, k)),
    decreases n,
{
    if n > 1 {
        let prev = g.sort_path(sv, path, (n - 1) as nat);
        lemma_sort_path(g, sv, path, (n - 1) as nat, k);
        lemma_sort_node(prev, sv, path, path[n - 1], k);
        if on_after(path, (n - 1) as nat, k) {
            let i = choose|i: int| 1 <= i < n - 1 && #[trigger] path[i] == k;
            assert(path[i] == k);
        }
        if k == path[n - 1] {
            assert(path[n - 1] == k);
        }
        if on_after(path, n, k) {
            let i = choose|i: int| 1 <= i < n && #[trigger] path[i] == k;
            if i < n - 1 {
                assert(on_after(path, (n - 1) as nat, k));
            }
        }
    }
}

/// Sorting paths sorts the recorded expressions on them, after their first node.
pub proof fn lemma_sort_paths(g: BufferView, sv: SysView, all: Seq<Seq<usize>>, n: nat, k: usize)
    requires
        n <= all.len(),
    ensures
        g.sort_paths(sv, all, n).exprs == g.exprs,
        sorted(g.sort_paths(sv, all, n), k) <==> sorted(g, k) || (g.exprs.contains(k)
            && sv.is_expr(k) && exists|j: int|
            0 <= j < n && on_after(#[trigger] all[j], all[j].len(), k)),
    decreases n,
{
    if n > 0 {
        let prev = g.sort_paths(sv, all, (n - 1) as nat);
        let p = all[n - 1];
        lemma_sort_paths(g, sv, all, (n - 1) as nat, k);
        lemma_sort_path(prev, sv, p, p.len(), k);
        if exists|j: int| 0 <= j < n - 1 && on_after(#[trigger] all[j], all[j].len(), k) {
            let j = choose|j: int| 0 <= j < n - 1 && on_after(#[trigger] all[j], all[j].len(), k);
            assert(on_after(all[j], all[j].len(), k));
        }
        if on_after(p, p.len(), k) {
            assert(on_after(all[n - 1], all[n - 1].len(), k));
        }
        if exists|j: int| 0 <= j < n && on_after(#[trigger] all[j], all[j].len(), k) {
            let j = choose|j: int| 0 <= j < n && on_after(#[trigger] all[j], all[j].len(), k);
            if j < n - 1 {
                assert(on_after(all[j], all[j].len(), k));
            }
        }
    }
}

/// The two lists of a cut. After the cut at `b` of a graph that had sorted
/// nothing, an expression is buffered or moved exactly if it is recorded
/// and stands, after `b`, on a path from `b` to a node without outgoing edge.
pub proof fn law_single_cut_lists(g: BufferView, sv: SysView, b: usize, k: usize)
    requires
        g.buffered_expr.len() == 0,
        g.moved_expr.len() == 0,
    ensures
        sorted(g.cut_at(sv, b), k) <==> g.exprs.contains(k) && sv.is_expr(k) && exists|j: int|
            0 <= j < paths(g.edges, sv.len(), b, Seq::empty()).len() && on_after(
                #[trigger] paths(g.edges, sv.len(), b, Seq::empty())[j],
                paths(g.edges, sv.len(), b, Seq::empty())[j].len(),
                k,
            ),
{
    let all = paths(g.edges, sv.len(), b, Seq::empty());
    let g0 = BufferView { buffered_nodes: g.buffered_nodes.push(b), ..g };
    lemma_sort_paths(g0, sv, all, all.len(), k);
}

/// Appends `k` to `v` unless it is there already.
fn insert_key(v: &mut Vec<usize>, k: usize)
    ensures
        final(v)@ == with_key(old(v)@, k),
        final(v)@.contains(k),
{
    if !has_key(v, k) {
        v.push(k);
        assert(v@[v@.len() - 1] == k);
    }
}

/// The dependency graph of the single-cut analysis.
pub struct DependencyGraph {
    adjacency: Vec<NodeData>,
    expr_hashmap: Vec<usize>,
    buffered_nodes: Vec<usize>,
    buffered_expr: Vec<usize>,
    moved_expr: Vec<usize>,
}

impl View for DependencyGraph {
    type V = BufferView;

    closed spec fn view(&self) -> BufferView {
        BufferView {
            edges: self.adjacency@,
            exprs: self.expr_hashmap@,
            buffered_nodes: self.buffered_nodes@,
            buffered_expr: self.buffered_expr@,
            moved_expr: self.moved_expr@,
        }
    }
}

impl Default for DependencyGraph {
    fn default() -> (r: Self)
        ensures
            r@ == BufferView::empty(),
    {
        Self::new()
    }
}

impl DependencyGraph {
    /// A graph without anything in it.
    pub fn new() -> (r: Self)
        ensures
            r@ == BufferView::empty(),
    {
        Self {
            adjacency: Vec::new(),
            expr_hashmap: Vec::new(),
            buffered_expr: Vec::new(),
            moved_expr: Vec::new(),
            buffered_nodes: Vec::new(),
        }
    }

    /// Adds the dependency of `child` on `mom`.
    pub fn add_edge(&mut self, mom: usize, child: usize)
        ensures
            final(self)@ == (BufferView {
                edges: old(self)@.edges.push(NodeData { mom, child }),
                ..old(self)@
            }),
    {
        self.adjacency.push(NodeData { mom: mom, child: child });
    }

    /// Can the cut run on this graph for `sys`: does every edge lead from a
    /// key to a greater key of the system?
    pub fn is_well_formed(&self, sys: &SysBuilder) -> (r: bool)
        ensures
            r == forward(self@.edges, sys@.len()),
    {
        crate::graph::edges_lead_up(&self.adjacency, sys.len())
    }

    /// The values that the buffered module reads.
    pub fn buffered_nodes(&self) -> (r: &Vec<usize>)
        ensures
            r@ == self@.buffered_nodes,
    {
        &self.buffered_nodes
    }

    /// The expressions that go to the buffered module.
    pub fn buffered_expr(&self) -> (r: &Vec<usize>)
        ensures
            r@ == self@.buffered_expr,
    {
        &self.buffered_expr
    }

    /// The expressions that hand data to another module.
    pub fn moved_expr(&self) -> (r: &Vec<usize>)
        ensures
            r@ == self@.moved_expr,
    {
        &self.moved_expr
    }

    /// The dependencies, in the order they were added.
    pub fn adjacency(&self) -> (r: &Vec<NodeData>)
        ensures
            r@ == self@.edges,
    {
        &self.adjacency
    }

    /// Creates the buffered module, named `barrier_module`, with one port
    /// for each value it reads.
    pub fn rewrite_modules(&mut self, sys: &mut SysBuilder)
        requires
            old(sys)@.wf(),
        ensures
            final(self)@ == old(self)@,
            final(sys)@ == old(sys)@.add_module("barrier_module"@, old(self)@.buffer_ports()),
            final(sys)@.wf(),
    {
        let mut all_ports: Vec<PortInfo> = Vec::new();
        let mut i: usize = 0;
        while i < self.buffered_nodes.len()
            invariant
                i <= self.buffered_nodes@.len(),
                all_ports@.len() == i,
                *self == *old(self),
                forall|j: int|
                    0 <= j < i ==> (#[trigger] all_ports@[j])@ == self@.buffer_ports()[j],
            decreases self.buffered_nodes@.len() - i,
        {
            let key = self.buffered_nodes[i];
            all_ports.push(PortInfo { name: buffered_port_name(key), dtype: DataType::Int(32) });
            i += 1;
        }
        assert(port_views(all_ports@) =~= self@.buffer_ports());
        sys.create_module("barrier_module", all_ports);
    }

    /// Cuts the graph at the barrier value `buffer_node` and creates the
    /// buffered module.
    pub fn rewrite(&mut self, sys: &mut SysBuilder, buffer_node: usize)
        requires
            old(sys)@.wf(),
            forward(old(self)@.edges, old(sys)@.len()),
        ensures
            final(self)@ == old(self)@.cut_at(old(sys)@, buffer_node),
            final(sys)@ == old(sys)@.add_module("barrier_module"@, final(self)@.buffer_ports()),
            final(sys)@.wf(),
    {
        let mut all_paths: Vec<Vec<usize>> = Vec::new();
        self.buffered_nodes.push(buffer_node);
        let mut path: Vec<usize> = Vec::new();
        let bound = sys.len();
        dfs_paths(&self.adjacency, bound, buffer_node, &mut path, &mut all_paths);
        let ghost all = lists(all_paths@);
        let ghost start = self@;
        assert(all =~= paths(old(self)@.edges, bound as nat, buffer_node, Seq::empty())) by {
            assert(lists(Seq::<Vec<usize>>::empty()) =~= Seq::<Seq<usize>>::empty());
        }
        let mut k: usize = 0;
        while k < all_paths.len()
            invariant
                k <= all_paths@.len(),
                all == lists(all_paths@),
                self@ == start.sort_paths(sys@, all, k as nat),
                sys@ == old(sys)@,
            decreases all_paths@.len() - k,
        {
            assert(all[k as int] == all_paths@[k as int]@);
            let p = &all_paths[k];
            let ghost before = self@;
            let mut n: usize = 1;
            while n < p.len()
                invariant
                    1 <= n,
                    n <= p@.len() || (p@.len() <= 1 && n == 1),
                    self@ == before.sort_path(sys@, p@, n as nat),
                    sys@ == old(sys)@,
                decreases p@.len() - n,
            {
                let key = p[n];
                let ghost cur = self@;
                if has_key(&self.expr_hashmap, key) && sys.is_expr(key) {
                    let op = sys.opcode(key);
                    if op == Opcode::FIFOPush || op == Opcode::Bind || op == Opcode::AsyncCall {
                        insert_key(&mut self.moved_expr, key);
                    } else {
                        insert_key(&mut self.buffered_expr, key);
                        let ops = sys.operands(key);
                        let mut j: usize = 0;
                        while j < ops.len()
                            invariant
                                j <= ops@.len(),
                                self@ == (BufferView {
                                    buffered_expr: with_key(cur.buffered_expr, key),
                                    buffered_nodes: absorb_operands(
                                        cur.buffered_nodes,
                                        p@,
                                        ops@,
                                        j as nat,
                                    ),
                                    ..cur
                                }),
                            decreases ops@.len() - j,
                        {
                            let o = ops[j];
                            if !has_key(p, o) && !has_key(&self.buffered_nodes, o) {
                                self.buffered_nodes.push(o);
                            }
                            j += 1;
                        }
                    }
                }
                assert(self@ == cur.sort_node(sys@, p@, key));
                n += 1;
            }
            assert(self@ == before.sort_path(sys@, p@, p@.len()));
            assert(start.sort_paths(sys@, all, (k + 1) as nat) == before.sort_path(
                sys@,
                all[k as int],
                all[k as int].len(),
            ));
            k += 1;
        }
        self.rewrite_modules(sys);
    }
}

/// Builds the graph of the single-cut analysis.
pub struct GraphVisitor {
    pub graph: DependencyGraph,
}

impl GraphVisitor {
    /// A visitor with an empty graph.
    pub fn new() -> (r: Self)
        ensures
            r.graph@ == BufferView::empty(),
    {
        Self { graph: DependencyGraph::new() }
    }

    /// Records the expression `expr` of `sys`. Always `None`: the visit
    /// never ends a traversal early.
    pub fn visit_expr(&mut self, sys: &SysBuilder, expr: usize) -> (r: Option<()>)
        requires
            sys@.is_expr(expr),
        ensures
            r.is_none(),
            final(self).graph@ == old(self).graph@.visit(sys@, expr),
    {
        let n = sys.operand_count(expr);
        let ghost ops = sys@.operands(expr);
        let ghost before = self.graph@;
        let mut i: usize = 0;
        while i < n
            invariant
                i <= n,
                n == ops.len(),
                ops == sys@.operands(expr),
                sys@.is_expr(expr),
                self.graph@ == (BufferView {
                    edges: before.edges + Seq::new(
                        i as nat,
                        |j: int| NodeData { mom: ops[j], child: expr },
                    ),
                    exprs: if i > 0 {
                        with_key(before.exprs, expr)
                    } else {
                        before.exprs
                    },
                    ..before
                }),
            decreases n - i,
        {
            let ghost edges = self.graph@.edges;
            self.graph.add_edge(sys.operand(expr, i), expr);
            insert_key(&mut self.graph.expr_hashmap, expr);
            assert(self.graph@.edges =~= before.edges + Seq::new(
                (i + 1) as nat,
                |j: int| NodeData { mom: ops[j], child: expr },
            ));
            assert(with_key(with_key(before.exprs, expr), expr) == with_key(before.exprs, expr)) by {
                if !before.exprs.contains(expr) {
                    assert(before.exprs.push(expr)[before.exprs.len() as int] == expr);
                }
            }
            i += 1;
        }
        assert(before.edges + Seq::new(0, |j: int| NodeData { mom: ops[j], child: expr })
            =~= before.edges);
        None
    }
}


impl GraphVisitor {
    /// Records every expression of the body of `module`, in program order.
    pub fn visit_module(&mut self, sys: &SysBuilder, module: usize) -> (r: Option<()>)
        requires
            sys@.wf(),
            sys@.is_module(module),
        ensures
            r.is_none(),
            final(self).graph@ == old(self).graph@.visit_all(
                sys@,
                sys@.body(module),
                sys@.body(module).len(),
            ),
    {
        let n = sys.body_len(module);
        let mut i: usize = 0;
        while i < n
            invariant
                i <= n,
                n == sys@.body(module).len(),
                sys@.wf(),
                sys@.is_module(module),
                self.graph@ == old(self).graph@.visit_all(sys@, sys@.body(module), i as nat),
            decreases n - i,
        {
            let k = sys.body_at(module, i);
            proof {
                assert(sys@.node_ok(module));
                assert(sys@.is_expr(sys@.body(module)[i as int]));
            }
            self.visit_expr(sys, k);
            i += 1;
        }
        None
    }
}

/// The state of the single-cut pass: the system, and the module whose body
/// the next barrier marker still has to take as its graph.
pub struct CutState {
    pub sys: SysView,
    pub pending: Option<usize>,
}

/// The graph that the barrier marker takes: that of the body of the
/// pending module, or an empty one where another marker took it before.
pub open spec fn graph_for(sv: SysView, pending: Option<usize>) -> BufferView {
    match pending {
        Some(m) => BufferView::empty().visit_all(sv, sv.body(m), sv.body(m).len()),
        None => BufferView::empty(),
    }
}

/// The pass after the expression `k`: a barrier marker cuts the graph at
/// the value it names and makes the buffered module. Fails where the graph
/// has an edge that leads to a key that is not greater.
pub open spec fn cut_expr(st: CutState, k: usize) -> Result<CutState, Failure> {
    if st.sys.opcode(k) != barrier_opcode() {
        Ok(st)
    } else {
        let g = graph_for(st.sys, st.pending);
        if !forward(g.edges, st.sys.len()) {
            Err(failed(PassError::BackwardEdge, st.sys))
        } else {
            Ok(
                CutState {
                    sys: st.sys.add_module(
                        "barrier_module"@,
                        g.cut_at(st.sys, st.sys.operands(k)[0]).buffer_ports(),
                    ),
                    pending: None,
                },
            )
        }
    }
}

/// The pass after the first `n` expressions of `body`.
pub open spec fn cut_exprs(st: CutState, body: Seq<usize>, n: nat) -> Result<CutState, Failure>
    decreases n,
{
    if n == 0 {
        Ok(st)
    } else {
        match cut_exprs(st, body, (n - 1) as nat) {
            Err(e) => Err(e),
            Ok(s) => cut_expr(s, body[n - 1]),
        }
    }
}

/// The pass after the module `m`: the body of a module that is no test
/// harness is gone through, with `m` pending.
pub open spec fn cut_module(sv: SysView, m: usize) -> Result<CutState, Failure> {
    let st = CutState { sys: sv, pending: Some(m) };
    if is_harness(sv.module(m).name) {
        Ok(st)
    } else {
        cut_exprs(st, sv.body(m), sv.body(m).len())
    }
}

/// The pass after the modules with a key below `n`, by rising key.
pub open spec fn cut_modules_upto(sv: SysView, n: nat) -> Result<SysView, Failure>
    decreases n,
{
    if n == 0 {
        Ok(sv)
    } else {
        match cut_modules_upto(sv, (n - 1) as nat) {
            Err(e) => Err(e),
            Ok(s) => if s.is_module((n - 1) as usize) {
                match cut_module(s, (n - 1) as usize) {
                    Err(e) => Err(e),
                    Ok(st) => Ok(st.sys),
                }
            } else {
                Ok(s)
            },
        }
    }
}

/// Once the pass has failed it stays failed.
proof fn lemma_cut_exprs_err(st: CutState, body: Seq<usize>, n: nat, m: nat)
    requires
        n <= m,
        cut_exprs(st, body, n).is_err(),
    ensures
        cut_exprs(st, body, m) == cut_exprs(st, body, n),
    decreases m,
{
    if n < m {
        lemma_cut_exprs_err(st, body, n, (m - 1) as nat);
    }
}

/// Once the pass has failed it stays failed.
proof fn lemma_cut_modules_err(sv: SysView, n: nat, m: nat)
    requires
        n <= m,
        cut_modules_upto(sv, n).is_err(),
    ensures
        cut_modules_upto(sv, m) == cut_modules_upto(sv, n),
    decreases m,
{
    if n < m {
        lemma_cut_modules_err(sv, n, (m - 1) as nat);
    }
}

/// Drives the single cut: makes a buffered module at every barrier marker
/// of every module that is no test harness.
pub struct GatherModulesToCut {
    to_rewrite: Option<usize>,
}

impl GatherModulesToCut {
    /// The module whose body the next barrier marker takes as its graph.
    pub closed spec fn pending(&self) -> Option<usize> {
        self.to_rewrite
    }

    /// A driver with no module pending.
    pub fn new() -> (r: Self)
        ensures
            r.pending().is_none(),
    {
        Self { to_rewrite: None }
    }

    /// Cuts at the expression `expr` if it is a barrier marker.
    pub fn visit_expr(&mut self, sys: &mut SysBuilder, expr: usize) -> (r: Result<(), PassError>)
        requires
            old(sys)@.wf(),
            old(sys)@.is_expr(expr),
            match old(self).pending() {
                Some(m) => old(sys)@.is_module(m),
                None => true,
            },
        ensures
            match r {
                Ok(()) => cut_expr(
                    CutState { sys: old(sys)@, pending: old(self).pending() },
                    expr,
                ) == Ok::<CutState, Failure>(
                    CutState { sys: final(sys)@, pending: final(self).pending() },
                ),
                Err(e) => cut_expr(
                    CutState { sys: old(sys)@, pending: old(self).pending() },
                    expr,
                ) == Err::<CutState, Failure>(failed(e, final(sys)@)),
            },
            final(sys)@.wf(),
            old(sys)@.grows_to(final(sys)@),
            match final(self).pending() {
                Some(m) => final(sys)@.is_module(m),
                None => true,
            },
            forall|m: usize| old(sys)@.is_module(m) ==> #[trigger] final(sys)@.body(m) == old(
                sys,
            )@.body(m),
    {
        proof {
            sys@.lemma_grows_refl();
            assert(sys@.node_ok(expr));
        }
        let op = sys.opcode(expr);
        if !(op == (Opcode::BlockIntrinsic { intrinsic: BlockIntrinsic::Barrier })) {
            return Ok(());
        }
        let mut visitor = GraphVisitor::new();
        match self.to_rewrite {
            Some(module) => {
                visitor.visit_module(&*sys, module);
            },
            None => {},
        }
        if !visitor.graph.is_well_formed(&*sys) {
            return Err(PassError::BackwardEdge);
        }
        self.to_rewrite = None;
        let b = sys.operand(expr, 0);
        visitor.graph.rewrite(sys, b);
        proof {
            assert forall|m: usize| old(sys)@.is_module(m) implies #[trigger] sys@.body(m) == old(
                sys,
            )@.body(m) by {}
        }
        Ok(())
    }

    /// Goes through the body of `module`, unless the module is a test harness.
    pub fn visit_module(&mut self, sys: &mut SysBuilder, module: usize) -> (r: Result<
        (),
        PassError,
    >)
        requires
            old(sys)@.wf(),
            old(sys)@.is_module(module),
            old(self).pending() == Some(module),
        ensures
            match r {
                Ok(()) => cut_module(old(sys)@, module) == Ok::<CutState, Failure>(
                    CutState { sys: final(sys)@, pending: final(self).pending() },
                ),
                Err(e) => cut_module(old(sys)@, module) == Err::<CutState, Failure>(
                    failed(e, final(sys)@),
                ),
            },
            final(sys)@.wf(),
            old(sys)@.grows_to(final(sys)@),
    {
        proof {
            sys@.lemma_grows_refl();
        }
        let name = sys.module_name(module);
        if name == String::from_str("driver") || name == String::from_str("testbench") {
            return Ok(());
        }
        let body = sys.body(module);
        let ghost start = CutState { sys: old(sys)@, pending: Some(module) };
        let mut i: usize = 0;
        while i < body.len()
            invariant
                i <= body@.len(),
                body@ == old(sys)@.body(module),
                old(sys)@.wf(),
                old(sys)@.is_module(module),
                start == (CutState { sys: old(sys)@, pending: Some(module) }),
                !is_harness(old(sys)@.module(module).name),
                cut_exprs(start, body@, i as nat) == Ok::<CutState, Failure>(
                    CutState { sys: sys@, pending: self.pending() },
                ),
                sys@.wf(),
                old(sys)@.grows_to(sys@),
                match self.pending() {
                    Some(m) => sys@.is_module(m),
                    None => true,
                },
            decreases body@.len() - i,
        {
            let k = body[i];
            let ghost before = sys@;
            let ghost at = CutState { sys: sys@, pending: self.pending() };
            proof {
                assert(old(sys)@.node_ok(module));
                assert(old(sys)@.is_expr(body@[i as int]));
                assert(old(sys)@.keeps(before, k));
                assert(cut_exprs(start, body@, (i + 1) as nat) == cut_expr(at, k));
            }
            match self.visit_expr(sys, k) {
                Ok(()) => {
                    proof {
                        old(sys)@.lemma_grows_trans(before, sys@);
                    }
                },
                Err(e) => {
                    proof {
                        old(sys)@.lemma_grows_trans(before, sys@);
                        lemma_cut_exprs_err(start, body@, (i + 1) as nat, body@.len());
                    }
                    return Err(e);
                },
            }
            i += 1;
        }
        Ok(())
    }

    /// Goes through every module that the system has at the start, by rising key.
    pub fn enter(&mut self, sys: &mut SysBuilder) -> (r: Result<(), PassError>)
        requires
            old(sys)@.wf(),
        ensures
            match r {
                Ok(()) => cut_modules_upto(old(sys)@, old(sys)@.len()) == Ok::<SysView, Failure>(
                    final(sys)@,
                ),
                Err(e) => cut_modules_upto(old(sys)@, old(sys)@.len()) == Err::<SysView, Failure>(
                    failed(e, final(sys)@),
                ),
            },
            final(sys)@.wf(),
            old(sys)@.grows_to(final(sys)@),
    {
        let n = sys.len();
        let mut m: usize = 0;
        proof {
            sys@.lemma_grows_refl();
        }
        while m < n
            invariant
                m <= n,
                n == old(sys)@.nodes.len(),
                cut_modules_upto(old(sys)@, m as nat) == Ok::<SysView, Failure>(sys@),
                sys@.wf(),
                old(sys)@.grows_to(sys@),
            decreases n - m,
        {
            let ghost before = sys@;
            if sys.is_module(m) {
                self.to_rewrite = Some(m);
                match self.visit_module(sys, m) {
                    Ok(()) => {
                        proof {
                            old(sys)@.lemma_grows_trans(before, sys@);
                        }
                    },
                    Err(e) => {
                        proof {
                            old(sys)@.lemma_grows_trans(before, sys@);
                            lemma_cut_modules_err(old(sys)@, (m + 1) as nat, n as nat);
                        }
                        return Err(e);
                    },
                }
            }
            m += 1;
        }
        Ok(())
    }
}

} // verus!
