//! Bubble sort in place.
use vstd::prelude::*;
use crate::binary_search::sorted;

verus! {

broadcast use {vstd::seq_lib::group_to_multiset_ensures, vstd::multiset::group_multiset_properties};

/// Sorts `arr` into ascending order by swapping neighbours that are out of order.
pub fn sort(arr: &mut Vec<i32>)
    ensures
        sorted(final(arr)@),
        final(arr)@.to_multiset() == old(arr)@.to_multiset(),
{
    let len = arr.len();
    let mut n = len;
    while n > 1
        invariant
            arr@.len() == len,
            n <= len,
            arr@.to_multiset() == old(arr)@.to_multiset(),
            forall|i: int, j: int| n <= i < j < len ==> arr@[i] <= arr@[j],
            forall|i: int, j: int| 0 <= i < n <= j < len ==> arr@[i] <= arr@[j],
        decreases n,
    {
        let m = n - 1;
        let mut i: usize = 0;
        while i < m
            invariant
                arr@.len() == len,
                m + 1 == n,
                n <= len,
                i <= m,
                arr@.to_multiset() == old(arr)@.to_multiset(),
                forall|i: int, j: int| n <= i < j < len ==> arr@[i] <= arr@[j],
                forall|i: int, j: int| 0 <= i < n <= j < len ==> arr@[i] <= arr@[j],
                forall|k: int| 0 <= k <= i ==> arr@[k] <= arr@[i as int],
            decreases m - i,
        {
            if arr[i] > arr[i + 1] {
                let x = arr[i];
                let y = arr[i + 1];
                let ghost s = arr@;
                arr.set(i, y);
                arr.set(i + 1, x);
                proof {
                    assert(s.update(i as int, s[i + 1]).update(i + 1, s[i as int]).to_multiset()
                        =~= s.to_multiset());
                }
            }
            i = i + 1;
        }
        n = m;
    }
}

} // verus!
