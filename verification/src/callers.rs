//! The call index: for each module that is called, the binds that call it.

use crate::builder::SysBuilder;
use crate::ir::{Opcode, SysView};
use crate::keys::has_key;
use vstd::prelude::*;

verus! {

/// The expression `k` is in the body of its parent.
pub open spec fn is_live(sv: SysView, k: usize) -> bool {
    sv.is_expr(k) && sv.is_module(sv.expr(k).parent) && sv.body(sv.expr(k).parent).contains(k)
}

/// `k` is a bind to `callee` that is in the body of its parent.
pub open spec fn calls(sv: SysView, k: usize, callee: usize) -> bool {
    sv.is_bind(k) && is_live(sv, k) && sv.operands(k).len() >= 1 && sv.operands(k)[0] == callee
}

/// The binds to `callee` with a key below `n`, by rising key.
pub open spec fn binds_to(sv: SysView, callee: usize, n: nat) -> Seq<usize>
    decreases n,
{
    if n == 0 {
        Seq::empty()
    } else {
        let prev = binds_to(sv, callee, (n - 1) as nat);
        if calls(sv, (n - 1) as usize, callee) {
            prev.push((n - 1) as usize)
        } else {
            prev
        }
    }
}

/// The call index knows `k`: `k` is a bind, in the body of its parent, to
/// a module.
pub open spec fn is_indexed(sv: SysView, k: usize) -> bool {
    sv.is_bind(k) && sv.operands(k).len() >= 1 && sv.is_module(sv.operands(k)[0]) && calls(
        sv,
        k,
        sv.operands(k)[0],
    )
}

/// The first `n` of `callers` without the binds that the call index of
/// `sv` does not know.
pub open spec fn keep_called(sv: SysView, callers: Seq<usize>, n: nat) -> Seq<usize>
    decreases n,
{
    if n == 0 {
        Seq::empty()
    } else {
        let prev = keep_called(sv, callers, (n - 1) as nat);
        let c = callers[n - 1];
        if sv.is_bind(c) && !is_indexed(sv, c) {
            prev
        } else {
            prev.push(c)
        }
    }
}

/// What is kept of the callers is among the callers, and holds every one
/// of them that is no bind or that the index knows.
pub proof fn lemma_keep_called(sv: SysView, callers: Seq<usize>, n: nat, c: usize)
    requires
        n <= callers.len(),
    ensures
        keep_called(sv, callers, n).contains(c) <==> callers.take(n as int).contains(c) && !(
        sv.is_bind(c) && !is_indexed(sv, c)),
    decreases n,
{
    let cur = keep_called(sv, callers, n);
    let t = callers.take(n as int);
    if n > 0 {
        let prev = keep_called(sv, callers, (n - 1) as nat);
        let u = callers.take(n - 1);
        let x = callers[n - 1];
        lemma_keep_called(sv, callers, (n - 1) as nat, c);
        assert(t =~= u.push(x));
        if u.contains(c) {
            let i = choose|i: int| 0 <= i < u.len() && u[i] == c;
            assert(t[i] == c);
        }
        if t.contains(c) {
            let i = choose|i: int| 0 <= i < t.len() && t[i] == c;
            if i < u.len() {
                assert(u[i] == c);
            }
        }
        assert(t[n - 1] == x);
        if sv.is_bind(x) && !is_indexed(sv, x) {
        } else {
            assert(cur == prev.push(x));
            assert(cur[prev.len() as int] == x);
            if prev.contains(c) {
                let i = choose|i: int| 0 <= i < prev.len() && prev[i] == c;
                assert(cur[i] == c);
            }
            if cur.contains(c) {
                let i = choose|i: int| 0 <= i < cur.len() && cur[i] == c;
                if i < prev.len() {
                    assert(prev[i] == c);
                }
            }
        }
    }
}

/// A module and the binds that call it.
pub struct CallersView {
    pub callee: usize,
    pub binds: Seq<usize>,
}

/// The entries of the call index for the modules with a key below `n`, by
/// rising key: one for each module that some bind calls.
pub open spec fn call_index(sv: SysView, n: nat) -> Seq<CallersView>
    decreases n,
{
    if n == 0 {
        Seq::empty()
    } else {
        let prev = call_index(sv, (n - 1) as nat);
        let m = (n - 1) as usize;
        let binds = binds_to(sv, m, sv.len());
        if sv.is_module(m) && binds.len() > 0 {
            prev.push(CallersView { callee: m, binds })
        } else {
            prev
        }
    }
}

/// A module and the binds that call it.
#[derive(Debug, Clone)]
pub struct Callers {
    pub callee: usize,
    pub binds: Vec<usize>,
}

impl View for Callers {
    type V = CallersView;

    open spec fn view(&self) -> CallersView {
        CallersView { callee: self.callee, binds: self.binds@ }
    }
}

/// The entries of a call index.
pub open spec fn callers_views(v: Seq<Callers>) -> Seq<CallersView> {
    Seq::new(v.len(), |i: int| v[i]@)
}

/// Is `k` a bind to `callee` that is in the body of its parent?
fn is_call_to(sys: &SysBuilder, k: usize, callee: usize) -> (r: bool)
    requires
        sys@.wf(),
        sys@.has(k),
    ensures
        r == calls(sys@, k, callee),
{
    if !sys.is_expr(k) {
        return false;
    }
    proof {
        assert(sys@.node_ok(k));
    }
    if !(sys.opcode(k) == Opcode::Bind) || sys.operand(k, 0) != callee {
        return false;
    }
    let parent = sys.parent(k);
    let body = sys.body(parent);
    has_key(&body, k)
}

/// For each module that is called, by rising key, the binds in the bodies
/// of the system that call it, by rising key.
pub fn find_module_with_callers(sys: &SysBuilder) -> (r: Vec<Callers>)
    requires
        sys@.wf(),
    ensures
        callers_views(r@) == call_index(sys@, sys@.len()),
{
    let n = sys.len();
    let mut index: Vec<Callers> = Vec::new();
    let mut m: usize = 0;
    assert(callers_views(index@) =~= call_index(sys@, 0));
    while m < n
        invariant
            m <= n,
            n == sys@.nodes.len(),
            sys@.wf(),
            callers_views(index@) == call_index(sys@, m as nat),
        decreases n - m,
    {
        if sys.is_module(m) {
            let mut binds: Vec<usize> = Vec::new();
            let mut k: usize = 0;
            assert(binds@ =~= binds_to(sys@, m, 0));
            while k < n
                invariant
                    k <= n,
                    n == sys@.nodes.len(),
                    sys@.wf(),
                    binds@ == binds_to(sys@, m, k as nat),
                decreases n - k,
            {
                if is_call_to(sys, k, m) {
                    binds.push(k);
                }
                k += 1;
            }
            if binds.len() > 0 {
                let ghost before = index@;
                index.push(Callers { callee: m, binds });
                assert(callers_views(index@) =~= callers_views(before).push(
                    CallersView { callee: m, binds: binds_to(sys@, m, n as nat) },
                ));
            }
        }
        m += 1;
    }
    index
}


/// Does the index `index` of `sys` know the bind `c`?
fn index_knows(sys: &SysBuilder, index: &Vec<Callers>, c: usize) -> (r: bool)
    requires
        sys@.wf(),
        callers_views(index@) == call_index(sys@, sys@.len()),
    ensures
        r == is_indexed(sys@, c),
{
    let mut i: usize = 0;
    while i < index.len()
        invariant
            i <= index@.len(),
            sys@.wf(),
            callers_views(index@) == call_index(sys@, sys@.len()),
            forall|j: int| 0 <= j < i ==> !(#[trigger] index@[j]).binds@.contains(c),
        decreases index@.len() - i,
    {
        if has_key(&index[i].binds, c) {
            proof {
                let m = index@[i as int].callee;
                assert(callers_views(index@)[i as int].callee == m);
                assert(callers_views(index@)[i as int].binds.contains(c));
                law_call_index(sys@, sys@.len(), m, c);
            }
            return true;
        }
        i += 1;
    }
    proof {
        if is_indexed(sys@, c) {
            let m = sys@.operands(c)[0];
            law_call_index(sys@, sys@.len(), m, c);
            let j = choose|j: int|
                0 <= j < call_index(sys@, sys@.len()).len() && (#[trigger] call_index(
                    sys@,
                    sys@.len(),
                )[j]).callee == m && call_index(sys@, sys@.len())[j].binds.contains(c);
            assert(callers_views(index@)[j].binds == index@[j].binds@);
        }
    }
    false
}

/// The caller expressions `callers` without the binds that the call index
/// of `sys` does not know.
pub fn called_by_index(sys: &SysBuilder, callers: &Vec<usize>) -> (r: Vec<usize>)
    requires
        sys@.wf(),
    ensures
        r@ == keep_called(sys@, callers@, callers@.len()),
{
    let index = find_module_with_callers(sys);
    let mut kept: Vec<usize> = Vec::new();
    let mut i: usize = 0;
    assert(kept@ =~= keep_called(sys@, callers@, 0));
    while i < callers.len()
        invariant
            i <= callers@.len(),
            sys@.wf(),
            callers_views(index@) == call_index(sys@, sys@.len()),
            kept@ == keep_called(sys@, callers@, i as nat),
        decreases callers@.len() - i,
    {
        let c = callers[i];
        let is_bind = sys.is_expr(c) && sys.opcode(c) == Opcode::Bind;
        if !is_bind || index_knows(sys, &index, c) {
            kept.push(c);
        }
        i += 1;
    }
    kept
}

/// The binds to `callee` below `n` are exactly the expressions below `n`
/// that call `callee`.
pub proof fn lemma_binds_to(sv: SysView, callee: usize, n: nat, k: usize)
    requires
        n <= usize::MAX + 1,
    ensures
        binds_to(sv, callee, n).contains(k) <==> k < n && calls(sv, k, callee),
    decreases n,
{
    if n > 0 {
        let prev = binds_to(sv, callee, (n - 1) as nat);
        let cur = binds_to(sv, callee, n);
        lemma_binds_to(sv, callee, (n - 1) as nat, k);
        if calls(sv, (n - 1) as usize, callee) {
            assert(cur == prev.push((n - 1) as usize));
            if prev.contains(k) {
                let i = choose|i: int| 0 <= i < prev.len() && prev[i] == k;
                assert(cur[i] == k);
            }
            if k == n - 1 {
                assert(cur[prev.len() as int] == k);
            }
            if cur.contains(k) {
                let i = choose|i: int| 0 <= i < cur.len() && cur[i] == k;
                if i < prev.len() {
                    assert(prev[i] == k);
                }
            }
        }
    }
}

/// The call index agrees with the binds themselves: it has an entry for a
/// module exactly if a bind in a body calls the module, and the entry
/// lists exactly the binds that do. So the callee that the index gives for
/// a bind is the callee that the bind names.
pub proof fn law_call_index(sv: SysView, n: nat, callee: usize, k: usize)
    requires
        sv.wf(),
        n <= sv.len(),
    ensures
        (exists|i: int|
            0 <= i < call_index(sv, n).len() && (#[trigger] call_index(sv, n)[i]).callee == callee
                && call_index(sv, n)[i].binds.contains(k)) <==> callee < n && sv.is_module(callee)
            && calls(sv, k, callee),
    decreases n,
{
    let cur = call_index(sv, n);
    if n > 0 {
        let prev = call_index(sv, (n - 1) as nat);
        let m = (n - 1) as usize;
        let binds = binds_to(sv, m, sv.len());
        law_call_index(sv, (n - 1) as nat, callee, k);
        lemma_binds_to(sv, m, sv.len(), k);
        lemma_entries_below(sv, (n - 1) as nat);
        if sv.is_module(m) && binds.len() > 0 {
            assert(cur == prev.push(CallersView { callee: m, binds }));
            if exists|i: int|
                0 <= i < prev.len() && (#[trigger] prev[i]).callee == callee
                    && prev[i].binds.contains(k) {
                let i = choose|i: int|
                    0 <= i < prev.len() && (#[trigger] prev[i]).callee == callee
                        && prev[i].binds.contains(k);
                assert(cur[i] == prev[i]);
            }
            if callee == m && calls(sv, k, callee) {
                assert(cur[prev.len() as int].callee == callee);
            }
            if exists|i: int|
                0 <= i < cur.len() && (#[trigger] cur[i]).callee == callee && cur[i].binds.contains(
                    k,
                ) {
                let i = choose|i: int|
                    0 <= i < cur.len() && (#[trigger] cur[i]).callee == callee
                        && cur[i].binds.contains(k);
                if i < prev.len() {
                    assert(prev[i] == cur[i]);
                }
            }
        } else {
            if callee == m && sv.is_module(m) && calls(sv, k, callee) {
                assert(binds.contains(k));
            }
        }
    }
}

/// Every entry for the modules below `n` is about a module below `n`.
proof fn lemma_entries_below(sv: SysView, n: nat)
    requires
        n <= usize::MAX + 1,
    ensures
        forall|i: int|
            0 <= i < call_index(sv, n).len() ==> (#[trigger] call_index(sv, n)[i]).callee < n,
    decreases n,
{
    if n > 0 {
        lemma_entries_below(sv, (n - 1) as nat);
        let prev = call_index(sv, (n - 1) as nat);
        let cur = call_index(sv, n);
        assert forall|i: int| 0 <= i < cur.len() implies (#[trigger] cur[i]).callee < n by {
            if i < prev.len() {
                assert(cur[i] == prev[i]);
            }
        }
    }
}

} // verus!
