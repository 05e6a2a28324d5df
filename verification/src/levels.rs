//! What has to cross each barrier cut: the paths that leave a barrier value
//! in the dependency graph, and the operands on them that lie upstream.

use crate::ir::{first_only, Opcode, SysView};
use vstd::prelude::*;

verus! {

/// One producer-to-consumer dependency: `child` has `mom` as an operand.
#[derive(Debug, Clone, Copy, PartialEq, Eq, Structural)]
pub struct NodeData {
    pub mom: usize,
    pub child: usize,
}

/// The values that cross the cut opened by the barrier value `key`.
pub struct CutView {
    pub key: usize,
    pub ports: Seq<usize>,
}

/// Every edge leads from a key to a greater one below `bound`. A graph of
/// such edges has no cycle.
pub open spec fn forward(edges: Seq<NodeData>, bound: nat) -> bool {
    forall|i: int| 0 <= i < edges.len() ==> (#[trigger] edges[i]).mom < edges[i].child < bound
}

/// Does an edge lead out of `v`?
pub open spec fn has_out(edges: Seq<NodeData>, v: usize) -> bool {
    exists|i: int| 0 <= i < edges.len() && (#[trigger] edges[i]).mom == v
}

/// The paths that go from `v` to a node without outgoing edge, each written
/// after `prefix`, in the order in which a depth-first walk along `edges`
/// completes them. A path of a single node is none.
pub open spec fn paths(edges: Seq<NodeData>, bound: nat, v: usize, prefix: Seq<usize>) -> Seq<
    Seq<usize>,
>
    decreases bound - v, edges.len() + 1,
{
    let path = prefix.push(v);
    if has_out(edges, v) {
        paths_via(edges, bound, v, path, 0)
    } else if path.len() > 1 {
        seq![path]
    } else {
        Seq::empty()
    }
}

/// The paths of `paths` whose first step is one of the edges from place `i` on.
pub open spec fn paths_via(
    edges: Seq<NodeData>,
    bound: nat,
    v: usize,
    path: Seq<usize>,
    i: nat,
) -> Seq<Seq<usize>>
    decreases bound - v, edges.len() - i,
{
    if i >= edges.len() {
        Seq::empty()
    } else {
        let e = edges[i as int];
        let here = if e.mom == v && v < e.child < bound {
            paths(edges, bound, e.child, path)
        } else {
            Seq::empty()
        };
        here + paths_via(edges, bound, v, path, i + 1)
    }
}

/// The operands of `k` that produce what `k` consumes, where `k` is one of
/// the recorded expressions `exprs`; a node that is not recorded has none.
/// A consumer that hands data to another module has none; a slice has its
/// base only.
pub open spec fn producers(sv: SysView, exprs: Seq<usize>, k: usize) -> Seq<usize> {
    if !exprs.contains(k) || !sv.is_expr(k) {
        Seq::empty()
    } else {
        let op = sv.opcode(k);
        if op == Opcode::FIFOPush || op == Opcode::Bind || op == Opcode::AsyncCall {
            Seq::empty()
        } else if op == Opcode::Slice {
            first_only(sv.operands(k))
        } else {
            sv.operands(k)
        }
    }
}

/// `ports` with `o` appended if `o` is neither on `path` nor a port already.
pub open spec fn absorb_operand(ports: Seq<usize>, path: Seq<usize>, o: usize) -> Seq<usize> {
    if !path.contains(o) && !ports.contains(o) {
        ports.push(o)
    } else {
        ports
    }
}

/// `ports` after the first `n` of `ops` were absorbed, in order.
pub open spec fn absorb_operands(ports: Seq<usize>, path: Seq<usize>, ops: Seq<usize>, n: nat) -> Seq<
    usize,
>
    decreases n,
{
    if n == 0 {
        ports
    } else {
        absorb_operand(absorb_operands(ports, path, ops, (n - 1) as nat), path, ops[n - 1])
    }
}

/// `ports` after the producers of the nodes at places 1 to `n - 1` of `path`
/// were absorbed, in order.
pub open spec fn absorb_path(
    ports: Seq<usize>,
    sv: SysView,
    exprs: Seq<usize>,
    path: Seq<usize>,
    n: nat,
) -> Seq<usize>
    decreases n,
{
    if n <= 1 {
        ports
    } else {
        let ops = producers(sv, exprs, path[n - 1]);
        absorb_operands(absorb_path(ports, sv, exprs, path, (n - 1) as nat), path, ops, ops.len())
    }
}

/// `ports` after the first `n` of `all` were absorbed, in order.
pub open spec fn absorb_paths(
    ports: Seq<usize>,
    sv: SysView,
    exprs: Seq<usize>,
    all: Seq<Seq<usize>>,
    n: nat,
) -> Seq<usize>
    decreases n,
{
    if n == 0 {
        ports
    } else {
        let p = all[n - 1];
        absorb_path(absorb_paths(ports, sv, exprs, all, (n - 1) as nat), sv, exprs, p, p.len())
    }
}

/// The values that cross the cut at the barrier value `b`: `b` itself, then
/// every producer of a recorded node downstream of `b` that lies on some
/// path from `b` without being on that path, in the order of discovery.
pub open spec fn cut_ports(edges: Seq<NodeData>, sv: SysView, exprs: Seq<usize>, b: usize) -> Seq<
    usize,
> {
    let all = paths(edges, sv.len(), b, Seq::empty());
    absorb_paths(seq![b], sv, exprs, all, all.len())
}

/// Does some cut carry the value `b`?
pub open spec fn covered(cuts: Seq<CutView>, b: usize) -> bool {
    exists|i: int| 0 <= i < cuts.len() && (#[trigger] cuts[i]).ports.contains(b)
}

/// The place of the first cut that carries `v`, from place `i` on;
/// `cuts.len()` where none does.
pub open spec fn first_cut(cuts: Seq<CutView>, v: usize, i: nat) -> nat
    decreases cuts.len() - i,
{
    if i >= cuts.len() {
        cuts.len()
    } else if cuts[i as int].ports.contains(v) {
        i
    } else {
        first_cut(cuts, v, i + 1)
    }
}

/// `cuts` after the first `n` barrier values were looked at, in order: a
/// value that no cut carries yet opens a cut of its own.
pub open spec fn cuts_after(
    cuts: Seq<CutView>,
    edges: Seq<NodeData>,
    sv: SysView,
    exprs: Seq<usize>,
    barriers: Seq<usize>,
    n: nat,
) -> Seq<CutView>
    decreases n,
{
    if n == 0 {
        cuts
    } else {
        let prev = cuts_after(cuts, edges, sv, exprs, barriers, (n - 1) as nat);
        let b = barriers[n - 1];
        if covered(prev, b) {
            prev
        } else {
            prev.push(CutView { key: b, ports: cut_ports(edges, sv, exprs, b) })
        }
    }
}

/// `first_cut` finds a cut exactly where one carries the value.
pub proof fn lemma_first_cut(cuts: Seq<CutView>, v: usize, i: nat)
    requires
        i <= cuts.len(),
    ensures
        i <= first_cut(cuts, v, i) <= cuts.len(),
        first_cut(cuts, v, i) < cuts.len() ==> cuts[first_cut(cuts, v, i) as int].ports.contains(v),
        forall|j: int| i <= j < first_cut(cuts, v, i) ==> !(#[trigger] cuts[j]).ports.contains(v),
    decreases cuts.len() - i,
{
    if i < cuts.len() && !cuts[i as int].ports.contains(v) {
        lemma_first_cut(cuts, v, i + 1);
    }
}

/// Absorbing keeps what was there and appends only values that were not.
pub proof fn lemma_absorb_operands(ports: Seq<usize>, path: Seq<usize>, ops: Seq<usize>, n: nat)
    requires
        n <= ops.len(),
        ports.no_duplicates(),
    ensures
        absorb_operands(ports, path, ops, n).no_duplicates(),
        ports.is_prefix_of(absorb_operands(ports, path, ops, n)),
    decreases n,
{
    if n > 0 {
        lemma_absorb_operands(ports, path, ops, (n - 1) as nat);
    }
}

/// Absorbing a path keeps the ports free of duplicates.
pub proof fn lemma_absorb_path(
    ports: Seq<usize>,
    sv: SysView,
    exprs: Seq<usize>,
    path: Seq<usize>,
    n: nat,
)
    requires
        n <= path.len(),
        ports.no_duplicates(),
    ensures
        absorb_path(ports, sv, exprs, path, n).no_duplicates(),
        ports.is_prefix_of(absorb_path(ports, sv, exprs, path, n)),
    decreases n,
{
    if n > 1 {
        lemma_absorb_path(ports, sv, exprs, path, (n - 1) as nat);
        let ops = producers(sv, exprs, path[n - 1]);
        lemma_absorb_operands(
            absorb_path(ports, sv, exprs, path, (n - 1) as nat),
            path,
            ops,
            ops.len(),
        );
    }
}

/// Absorbing paths keeps the ports free of duplicates.
pub proof fn lemma_absorb_paths(
    ports: Seq<usize>,
    sv: SysView,
    exprs: Seq<usize>,
    all: Seq<Seq<usize>>,
    n: nat,
)
    requires
        n <= all.len(),
        ports.no_duplicates(),
    ensures
        absorb_paths(ports, sv, exprs, all, n).no_duplicates(),
        ports.is_prefix_of(absorb_paths(ports, sv, exprs, all, n)),
    decreases n,
{
    if n > 0 {
        lemma_absorb_paths(ports, sv, exprs, all, (n - 1) as nat);
        let p = all[n - 1];
        lemma_absorb_path(absorb_paths(ports, sv, exprs, all, (n - 1) as nat), sv, exprs, p, p.len());
    }
}

/// The values that cross a cut are listed once each, the barrier value first.
pub proof fn law_cut_values_once(edges: Seq<NodeData>, sv: SysView, exprs: Seq<usize>, b: usize)
    ensures
        cut_ports(edges, sv, exprs, b).no_duplicates(),
        cut_ports(edges, sv, exprs, b).len() >= 1,
        cut_ports(edges, sv, exprs, b)[0] == b,
{
    let all = paths(edges, sv.len(), b, Seq::empty());
    lemma_absorb_paths(seq![b], sv, exprs, all, all.len());
    let r = cut_ports(edges, sv, exprs, b);
    assert(seq![b] =~= r.subrange(0, 1));
    assert(r.subrange(0, 1)[0] == r[0]);
}


/// A recorded node on `path`, after its first, needs `p` from upstream:
/// `p` is one of its producers and is not on the path.
pub open spec fn needed_on(sv: SysView, exprs: Seq<usize>, path: Seq<usize>, p: usize) -> bool {
    !path.contains(p) && exists|i: int|
        1 <= i < path.len() && producers(sv, exprs, #[trigger] path[i]).contains(p)
}

/// Appending adds the appended element and nothing else.
pub proof fn lemma_push_contains(s: Seq<usize>, x: usize, p: usize)
    ensures
        s.push(x).contains(p) <==> s.contains(p) || x == p,
{
    let t = s.push(x);
    if s.contains(p) {
        let i = choose|i: int| 0 <= i < s.len() && s[i] == p;
        assert(t[i] == p);
    }
    if x == p {
        assert(t[s.len() as int] == p);
    }
    if t.contains(p) {
        let i = choose|i: int| 0 <= i < t.len() && t[i] == p;
        if i < s.len() {
            assert(s[i] == p);
        }
    }
}

/// What absorbing operands leaves: what was there, and every operand that
/// is not on the path.
pub proof fn lemma_absorb_operands_has(
    ports: Seq<usize>,
    path: Seq<usize>,
    ops: Seq<usize>,
    n: nat,
    p: usize,
)
    requires
        n <= ops.len(),
    ensures
        absorb_operands(ports, path, ops, n).contains(p) <==> ports.contains(p) || (!path.contains(
            p,
        ) && ops.take(n as int).contains(p)),
    decreases n,
{
    if n == 0 {
        assert(ops.take(0) =~= Seq::<usize>::empty());
    } else {
        let prev = absorb_operands(ports, path, ops, (n - 1) as nat);
        let o = ops[n - 1];
        lemma_absorb_operands_has(ports, path, ops, (n - 1) as nat, p);
        assert(ops.take(n as int) =~= ops.take(n - 1).push(o));
        lemma_push_contains(ops.take(n - 1), o, p);
        lemma_push_contains(prev, o, p);
    }
}

/// What absorbing a path leaves: what was there, and everything that a
/// recorded node on the path, after its first, needs from upstream.
pub proof fn lemma_absorb_path_has(
    ports: Seq<usize>,
    sv: SysView,
    exprs: Seq<usize>,
    path: Seq<usize>,
    n: nat,
    p: usize,
)
    requires
        n <= path.len(),
    ensures
        absorb_path(ports, sv, exprs, path, n).contains(p) <==> ports.contains(p) || (
        !path.contains(p) && exists|i: int|
            1 <= i < n && producers(sv, exprs, #[trigger] path[i]).contains(p)),
    decreases n,
{
    if n > 1 {
        let prev = absorb_path(ports, sv, exprs, path, (n - 1) as nat);
        let ops = producers(sv, exprs, path[n - 1]);
        lemma_absorb_path_has(ports, sv, exprs, path, (n - 1) as nat, p);
        lemma_absorb_operands_has(prev, path, ops, ops.len(), p);
        assert(ops.take(ops.len() as int) =~= ops);
        if !path.contains(p) {
            if exists|i: int| 1 <= i < n && producers(sv, exprs, #[trigger] path[i]).contains(p) {
                let i = choose|i: int|
                    1 <= i < n && producers(sv, exprs, #[trigger] path[i]).contains(p);
                if i < n - 1 {
                    assert(prev.contains(p));
                }
            }
            if ops.contains(p) {
                assert(producers(sv, exprs, path[n - 1]).contains(p));
            }
        }
    }
}

/// What absorbing paths leaves: what was there, and everything that is
/// needed on one of the paths.
pub proof fn lemma_absorb_paths_has(
    ports: Seq<usize>,
    sv: SysView,
    exprs: Seq<usize>,
    all: Seq<Seq<usize>>,
    n: nat,
    p: usize,
)
    requires
        n <= all.len(),
    ensures
        absorb_paths(ports, sv, exprs, all, n).contains(p) <==> ports.contains(p) || exists|
            k: int,
        |
            0 <= k < n && needed_on(sv, exprs, #[trigger] all[k], p),
    decreases n,
{
    if n > 0 {
        let prev = absorb_paths(ports, sv, exprs, all, (n - 1) as nat);
        let path = all[n - 1];
        lemma_absorb_paths_has(ports, sv, exprs, all, (n - 1) as nat, p);
        lemma_absorb_path_has(prev, sv, exprs, path, path.len(), p);
        if exists|k: int| 0 <= k < n && needed_on(sv, exprs, #[trigger] all[k], p) {
            let k = choose|k: int| 0 <= k < n && needed_on(sv, exprs, #[trigger] all[k], p);
            if k < n - 1 {
                assert(prev.contains(p));
            }
        }
        if needed_on(sv, exprs, path, p) {
            assert(needed_on(sv, exprs, all[n - 1], p));
        }
    }
}

/// What crosses a cut. A value other than the barrier value `b` crosses the
/// cut at `b` exactly if some path from `b` to a node without outgoing edge
/// has, after `b`, a recorded node that is no push, bind or call and has
/// the value as an operand (as its base, for a slice), and the value is
/// not on that path.
pub proof fn law_cut_membership(
    edges: Seq<NodeData>,
    sv: SysView,
    exprs: Seq<usize>,
    b: usize,
    p: usize,
)
    ensures
        cut_ports(edges, sv, exprs, b).contains(p) <==> p == b || exists|k: int|
            0 <= k < paths(edges, sv.len(), b, Seq::empty()).len() && needed_on(
                sv,
                exprs,
                #[trigger] paths(edges, sv.len(), b, Seq::empty())[k],
                p,
            ),
{
    let all = paths(edges, sv.len(), b, Seq::empty());
    lemma_absorb_paths_has(seq![b], sv, exprs, all, all.len(), p);
    lemma_push_contains(Seq::<usize>::empty(), b, p);
    assert(seq![b] =~= Seq::<usize>::empty().push(b));
}

} // verus!
