//! Quicksort in place, with the middle element as pivot.
use vstd::prelude::*;
use vstd::multiset::Multiset;
use crate::binary_search::sorted;

verus! {

broadcast use {
    vstd::seq_lib::group_to_multiset_ensures,
    vstd::multiset::group_multiset_properties,
    vstd::seq_lib::lemma_multiset_commutative,
};

/// The values of `s` at the indices `lo..hi`, as a multiset.
pub open spec fn range_values(s: Seq<i32>, lo: int, hi: int) -> Multiset<i32> {
    s.subrange(lo, hi).to_multiset()
}

/// `s` and `t` agree outside the indices `lo..hi`.
pub open spec fn same_outside(s: Seq<i32>, t: Seq<i32>, lo: int, hi: int) -> bool {
    &&& s.len() == t.len()
    &&& forall|k: int| 0 <= k < s.len() && !(lo <= k < hi) ==> s[k] == t[k]
}

/// Exchanges the values at `i` and `j`, both among the indices `lo..hi`.
fn swap(a: &mut Vec<i32>, i: usize, j: usize, Ghost(lo): Ghost<int>, Ghost(hi): Ghost<int>)
    requires
        0 <= lo <= i < hi,
        lo <= j < hi,
        hi <= old(a)@.len(),
    ensures
        final(a)@ == old(a)@.update(i as int, old(a)@[j as int]).update(j as int, old(a)@[i as int]),
        same_outside(final(a)@, old(a)@, lo, hi),
        range_values(final(a)@, lo, hi) == range_values(old(a)@, lo, hi),
{
    let x = a[i];
    let y = a[j];
    a.set(i, y);
    a.set(j, x);
    proof {
        let s = old(a)@.subrange(lo, hi);
        assert(a@.subrange(lo, hi) =~= s.update(i - lo, s[j - lo]).update(j - lo, s[i - lo]));
    }
}

/// Values with the same multiset share every bound.
proof fn lemma_bound_carries(s: Seq<i32>, t: Seq<i32>, p: int)
    requires
        s.to_multiset() == t.to_multiset(),
    ensures
        (forall|k: int| 0 <= k < t.len() ==> t[k] <= p) ==> forall|k: int| 0 <= k < s.len() ==> s[k] <= p,
        (forall|k: int| 0 <= k < t.len() ==> t[k] > p) ==> forall|k: int| 0 <= k < s.len() ==> s[k] > p,
{
    assert forall|k: int| 0 <= k < s.len() implies t.contains(#[trigger] s[k]) by {
        assert(s.contains(s[k]));
        assert(s.to_multiset().count(s[k]) > 0);
    }
}

/// Splitting a range splits its multiset.
proof fn lemma_range_split(s: Seq<i32>, lo: int, m: int, hi: int)
    requires
        0 <= lo <= m <= hi <= s.len(),
    ensures
        range_values(s, lo, hi) == range_values(s, lo, m).add(range_values(s, m, hi)),
{
    assert(s.subrange(lo, hi) =~= s.subrange(lo, m) + s.subrange(m, hi));
}

/// Moves the values at `lo..hi` so that the middle one, the pivot, stands at
/// the returned index, with no greater value before it and only greater
/// values after it.
pub fn partition(a: &mut Vec<i32>, lo: usize, hi: usize) -> (m: usize)
    requires
        lo < hi <= old(a)@.len(),
    ensures
        lo <= m < hi,
        same_outside(final(a)@, old(a)@, lo as int, hi as int),
        range_values(final(a)@, lo as int, hi as int) == range_values(old(a)@, lo as int, hi as int),
        forall|k: int| lo <= k < m ==> final(a)@[k] <= final(a)@[m as int],
        forall|k: int| m < k < hi ==> final(a)@[k] > final(a)@[m as int],
{
    let p = hi - 1;
    swap(a, lo + (hi - lo) / 2, p, Ghost(lo as int), Ghost(hi as int));
    let pivot = a[p];
    let mut left = lo;
    let mut right = lo;
    while right < p
        invariant
            lo <= left <= right <= p,
            p + 1 == hi,
            hi <= a@.len(),
            a@[p as int] == pivot,
            same_outside(a@, old(a)@, lo as int, hi as int),
            range_values(a@, lo as int, hi as int) == range_values(old(a)@, lo as int, hi as int),
            forall|k: int| lo <= k < left ==> a@[k] <= pivot,
            forall|k: int| left <= k < right ==> a@[k] > pivot,
        decreases p - right,
    {
        if a[right] <= pivot {
            swap(a, left, right, Ghost(lo as int), Ghost(hi as int));
            left = left + 1;
        }
        right = right + 1;
    }
    swap(a, left, p, Ghost(lo as int), Ghost(hi as int));
    left
}

/// Sorts the values at the indices `lo..hi`.
fn quick_sort_range(a: &mut Vec<i32>, lo: usize, hi: usize)
    requires
        lo <= hi <= old(a)@.len(),
    ensures
        same_outside(final(a)@, old(a)@, lo as int, hi as int),
        range_values(final(a)@, lo as int, hi as int) == range_values(old(a)@, lo as int, hi as int),
        forall|i: int, j: int| lo <= i < j < hi ==> final(a)@[i] <= final(a)@[j],
    decreases hi - lo,
{
    if hi - lo <= 1 {
        return;
    }
    let m = partition(a, lo, hi);
    let ghost a1 = a@;
    let ghost piv = a1[m as int];
    if m > lo {
        quick_sort_range(a, lo, m);
    }
    let ghost a2 = a@;
    if m + 1 < hi {
        quick_sort_range(a, m + 1, hi);
    }
    proof {
        let a3 = a@;
        assert(a3[m as int] == piv);
        lemma_range_split(a1, lo as int, m as int, hi as int);
        lemma_range_split(a1, m as int, m + 1, hi as int);
        lemma_range_split(a3, lo as int, m as int, hi as int);
        lemma_range_split(a3, m as int, m + 1, hi as int);
        assert(a3.subrange(lo as int, m as int) =~= a2.subrange(lo as int, m as int));
        assert(a2.subrange(m + 1, hi as int) =~= a1.subrange(m + 1, hi as int));
        assert(a3.subrange(m as int, m + 1) =~= a1.subrange(m as int, m + 1));
        assert forall|k: int| 0 <= k < a1.subrange(lo as int, m as int).len() implies #[trigger] a1.subrange(lo as int, m as int)[k] <= piv by {
            assert(a1.subrange(lo as int, m as int)[k] == a1[lo + k]);
        }
        assert forall|k: int| 0 <= k < a1.subrange(m + 1, hi as int).len() implies #[trigger] a1.subrange(m + 1, hi as int)[k] > piv by {
            assert(a1.subrange(m + 1, hi as int)[k] == a1[m + 1 + k]);
        }
        lemma_bound_carries(a3.subrange(lo as int, m as int), a1.subrange(lo as int, m as int), piv as int);
        lemma_bound_carries(a3.subrange(m + 1, hi as int), a1.subrange(m + 1, hi as int), piv as int);
        assert forall|i: int, j: int| lo <= i < j < hi implies a3[i] <= a3[j] by {
            if i < m {
                assert(a3.subrange(lo as int, m as int)[i - lo] == a3[i]);
            }
            if j > m {
                assert(a3.subrange(m + 1, hi as int)[j - m - 1] == a3[j]);
            }
        }
    }
}

/// Sorts `a` into ascending order.
pub fn quick_sort(a: &mut Vec<i32>)
    ensures
        sorted(final(a)@),
        final(a)@.to_multiset() == old(a)@.to_multiset(),
{
    let n = a.len();
    quick_sort_range(a, 0, n);
    assert(a@.subrange(0, n as int) =~= a@);
    assert(old(a)@.subrange(0, n as int) =~= old(a)@);
}

} // verus!
