//! Lists of node keys: search and copying.

use vstd::prelude::*;

verus! {

/// The place of the first occurrence of `k` in `s`; `s.len()` where `k` does not occur.
pub open spec fn first_at(s: Seq<usize>, k: usize) -> int
    decreases s.len(),
{
    if s.len() == 0 {
        0
    } else if s[0] == k {
        0
    } else {
        1 + first_at(s.drop_first(), k)
    }
}

/// `first_at` is the least place that holds `k`.
pub proof fn lemma_first_at(s: Seq<usize>, k: usize)
    ensures
        0 <= first_at(s, k) <= s.len(),
        first_at(s, k) < s.len() ==> s[first_at(s, k)] == k,
        forall|j: int| 0 <= j < first_at(s, k) ==> s[j] != k,
        s.contains(k) <==> first_at(s, k) < s.len(),
    decreases s.len(),
{
    if s.len() == 0 {
    } else if s[0] == k {
    } else {
        let t = s.drop_first();
        lemma_first_at(t, k);
        let r = first_at(s, k);
        assert forall|j: int| 0 <= j < r implies s[j] != k by {
            if j > 0 {
                assert(t[j - 1] == s[j]);
            }
        }
        if r < s.len() {
            assert(t[r - 1] == s[r]);
        }
        if s.contains(k) {
            let i = choose|i: int| 0 <= i < s.len() && s[i] == k;
            assert(t[i - 1] == k);
            assert(t.contains(k));
        }
    }
}

/// A place that holds `k` with no earlier one that does is `first_at`.
pub proof fn lemma_first_at_is(s: Seq<usize>, k: usize, i: int)
    requires
        0 <= i <= s.len(),
        forall|j: int| 0 <= j < i ==> s[j] != k,
        i < s.len() ==> s[i] == k,
    ensures
        first_at(s, k) == i,
{
    lemma_first_at(s, k);
    let r = first_at(s, k);
    if r < i {
        assert(s[r] == k);
    } else if r > i {
        assert(s[i] != k);
    }
}

/// The place of the first occurrence of `k` in `v`, or `v.len()`.
pub fn find_key(v: &Vec<usize>, k: usize) -> (r: usize)
    ensures
        r == first_at(v@, k),
        r <= v@.len(),
{
    let mut i: usize = 0;
    while i < v.len() && v[i] != k
        invariant
            i <= v.len(),
            forall|j: int| 0 <= j < i ==> v@[j] != k,
        decreases v.len() - i,
    {
        i += 1;
    }
    proof {
        lemma_first_at_is(v@, k, i as int);
    }
    i
}

/// Does `k` occur in `v`?
pub fn has_key(v: &Vec<usize>, k: usize) -> (r: bool)
    ensures
        r == v@.contains(k),
{
    let i = find_key(v, k);
    proof {
        lemma_first_at(v@, k);
    }
    i < v.len()
}

/// A copy of `v`.
pub fn copy_keys(v: &Vec<usize>) -> (r: Vec<usize>)
    ensures
        r@ == v@,
{
    let mut r: Vec<usize> = Vec::new();
    let mut i: usize = 0;
    while i < v.len()
        invariant
            i <= v.len(),
            r@ == v@.take(i as int),
        decreases v.len() - i,
    {
        r.push(v[i]);
        assert(v@.take(i + 1) =~= v@.take(i as int).push(v@[i as int]));
        i += 1;
    }
    assert(v@.take(v.len() as int) =~= v@);
    r
}

} // verus!
