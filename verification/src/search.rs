//! The first position, in scan order, at which a pattern is found.

use vstd::prelude::*;

verus! {

/// The least `k` in `i..n` with `p(k)`, if there is one.
pub open spec fn first_from(p: spec_fn(int) -> bool, i: int, n: int) -> Option<int>
    decreases n - i,
{
    if i >= n {
        None
    } else if p(i) {
        Some(i)
    } else {
        first_from(p, i + 1, n)
    }
}

pub proof fn lemma_first_from(p: spec_fn(int) -> bool, i: int, n: int)
    ensures
        first_from(p, i, n) matches Some(k) ==> i <= k < n && p(k) && forall|j: int| i <= j < k ==> !#[trigger] p(j),
        first_from(p, i, n) is None ==> forall|j: int| i <= j < n ==> !#[trigger] p(j),
    decreases n - i,
{
    if i < n && !p(i) {
        lemma_first_from(p, i + 1, n);
    }
}

/// Skipping a position without the pattern does not change the search.
pub proof fn lemma_first_skip(p: spec_fn(int) -> bool, i: int, n: int)
    requires
        i < n,
        !p(i),
    ensures
        first_from(p, i, n) == first_from(p, i + 1, n),
{
}

pub proof fn lemma_first_hit(p: spec_fn(int) -> bool, i: int, n: int)
    requires
        i < n,
        p(i),
    ensures
        first_from(p, i, n) == Some(i),
{
}

pub proof fn lemma_first_end(p: spec_fn(int) -> bool, n: int)
    ensures
        first_from(p, n, n) is None,
{
}

/// The positions `i` in `lo..hi` with `p(i)`, in increasing order.
pub open spec fn select(p: spec_fn(int) -> bool, lo: int, hi: int) -> Seq<int>
    decreases hi - lo,
{
    if hi <= lo {
        Seq::empty()
    } else if p(hi - 1) {
        select(p, lo, hi - 1).push(hi - 1)
    } else {
        select(p, lo, hi - 1)
    }
}

/// A sequence of indices as mathematical integers.
pub open spec fn ints(v: Seq<usize>) -> Seq<int> {
    v.map_values(|x: usize| x as int)
}

pub proof fn lemma_ints_push(v: Seq<usize>, x: usize)
    ensures
        ints(v.push(x)) == ints(v).push(x as int),
{
    assert(ints(v.push(x)) =~= ints(v).push(x as int));
}

/// Every selected position lies in `lo..hi` and has `p`.
pub proof fn lemma_select(p: spec_fn(int) -> bool, lo: int, hi: int)
    ensures
        forall|j: int| 0 <= j < select(p, lo, hi).len() ==> lo <= #[trigger] select(p, lo, hi)[j] < hi && p(select(p, lo, hi)[j]),
        forall|j: int, k: int| 0 <= j < k < select(p, lo, hi).len() ==> select(p, lo, hi)[j] < select(p, lo, hi)[k],
    decreases hi - lo,
{
    if hi > lo {
        lemma_select(p, lo, hi - 1);
        let prev = select(p, lo, hi - 1);
        let cur = select(p, lo, hi);
        if p(hi - 1) {
            assert forall|j: int| 0 <= j < cur.len() implies lo <= #[trigger] cur[j] < hi && p(cur[j]) by {
                if j < prev.len() {
                    assert(cur[j] == prev[j]);
                }
            }
            assert forall|j: int, k: int| 0 <= j < k < cur.len() implies cur[j] < cur[k] by {
                assert(cur[j] == prev[j]);
                if k < prev.len() {
                    assert(cur[k] == prev[k]);
                }
            }
        }
    }
}

/// Every position in `lo..hi` with `p` is selected.
pub proof fn lemma_select_complete(p: spec_fn(int) -> bool, lo: int, hi: int, j: int)
    requires
        lo <= j < hi,
        p(j),
    ensures
        select(p, lo, hi).contains(j),
    decreases hi - lo,
{
    if j < hi - 1 {
        lemma_select_complete(p, lo, hi - 1, j);
        let prev = select(p, lo, hi - 1);
        let k = choose|k: int| 0 <= k < prev.len() && prev[k] == j;
        if p(hi - 1) {
            assert(select(p, lo, hi)[k] == j);
        }
    } else {
        assert(select(p, lo, hi).last() == j);
    }
}

/// Searches with the same test on the range find the same.
pub proof fn lemma_first_ext(p: spec_fn(int) -> bool, q: spec_fn(int) -> bool, lo: int, hi: int)
    requires
        forall|i: int| lo <= i < hi ==> #[trigger] p(i) == q(i),
    ensures
        first_from(p, lo, hi) == first_from(q, lo, hi),
    decreases hi - lo,
{
    if lo < hi {
        lemma_first_ext(p, q, lo + 1, hi);
    }
}

} // verus!
