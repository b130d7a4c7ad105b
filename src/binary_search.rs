//! Binary search over a vector sorted in ascending order.
use vstd::prelude::*;

verus! {

/// The values never decrease from left to right.
pub open spec fn sorted(s: Seq<i32>) -> bool {
    forall|i: int, j: int| 0 <= i < j < s.len() ==> s[i] <= s[j]
}

/// Looks for `v` among the indices `lo..hi`, halving the range at each step.
pub fn internal_search(arr: &Vec<i32>, lo: usize, hi: usize, v: i32) -> (r: Option<usize>)
    requires
        lo <= hi <= arr@.len(),
    ensures
        r matches Some(i) ==> lo <= i < hi && arr@[i as int] == v,
        r is None && sorted(arr@) ==> forall|j: int| lo <= j < hi ==> arr@[j] != v,
    decreases hi - lo,
{
    if hi == lo {
        return None;
    }
    let m = lo + (hi - lo) / 2;
    if arr[m] == v {
        Some(m)
    } else if arr[m] < v {
        internal_search(arr, m + 1, hi, v)
    } else {
        internal_search(arr, lo, m, v)
    }
}

/// Recursive binary search: the index of some slot of `arr` that holds `v`.
pub fn search_rec(arr: Vec<i32>, v: i32) -> (r: Option<usize>)
    ensures
        r matches Some(i) ==> i < arr@.len() && arr@[i as int] == v,
        r is None && sorted(arr@) ==> !arr@.contains(v),
{
    internal_search(&arr, 0, arr.len(), v)
}

/// Iterative binary search: the index of some slot of `arr` that holds `v`.
pub fn search(arr: Vec<i32>, v: i32) -> (r: Option<usize>)
    ensures
        r matches Some(i) ==> i < arr@.len() && arr@[i as int] == v,
        r is None && sorted(arr@) ==> !arr@.contains(v),
{
    let mut lo: usize = 0;
    let mut hi: usize = arr.len();
    while lo < hi
        invariant
            lo <= hi <= arr@.len(),
            sorted(arr@) ==> forall|j: int| 0 <= j < lo ==> arr@[j] != v,
            sorted(arr@) ==> forall|j: int| hi <= j < arr@.len() ==> arr@[j] != v,
        decreases hi - lo,
    {
        let m = lo + (hi - lo) / 2;
        if arr[m] == v {
            return Some(m);
        } else if arr[m] < v {
            lo = m + 1;
        } else {
            hi = m;
        }
    }
    None
}

} // verus!
