//! Quickselect with median-of-medians pivots, over a window of a vector.

use vstd::prelude::*;
use crate::permutation::lemma_swap_multiset;

verus! {

/// Exchanges two positions of the window.
fn swap_at(arr: &mut Vec<i32>, a: usize, b: usize)
    requires
        a < old(arr)@.len(),
        b < old(arr)@.len(),
    ensures
        final(arr)@.len() == old(arr)@.len(),
        final(arr)@ == old(arr)@.update(a as int, old(arr)@[b as int]).update(
            b as int,
            old(arr)@[a as int],
        ),
        final(arr)@.to_multiset() == old(arr)@.to_multiset(),
{
    let x = arr[a];
    let y = arr[b];
    arr[a] = y;
    arr[b] = x;
    proof {
        assert(arr@ =~= old(arr)@.update(a as int, old(arr)@[b as int]).update(
            b as int,
            old(arr)@[a as int],
        ));
        lemma_swap_multiset(old(arr)@, a as int, b as int);
    }
}

/// Sorts `arr[lo..hi]` in place by adjacent exchanges.
fn sort_range(arr: &mut Vec<i32>, lo: usize, hi: usize)
    requires
        lo <= hi <= old(arr)@.len(),
    ensures
        final(arr)@.len() == old(arr)@.len(),
        final(arr)@.to_multiset() == old(arr)@.to_multiset(),
        forall|p: int|
            0 <= p < old(arr)@.len() && !(lo <= p < hi) ==> final(arr)@[p] == old(arr)@[p],
        forall|p: int, q: int| lo <= p < q < hi ==> final(arr)@[p] <= final(arr)@[q],
{
    let n = arr.len();
    let mut i = lo;
    while i < hi
        invariant
            lo <= i <= hi <= n,
            n == arr@.len(),
            arr@.len() == old(arr)@.len(),
            arr@.to_multiset() == old(arr)@.to_multiset(),
            forall|p: int|
                0 <= p < old(arr)@.len() && !(lo <= p < hi) ==> arr@[p] == old(arr)@[p],
            forall|p: int, q: int| lo <= p < q < i ==> arr@[p] <= arr@[q],
            forall|p: int, q: int| lo <= p < i <= q < hi ==> arr@[p] <= arr@[q],
        decreases hi - i,
    {
        // pull the least remaining element into position i
        let mut j = i + 1;
        while j < hi
            invariant
                lo <= i < j <= hi <= n,
                n == arr@.len(),
                arr@.len() == old(arr)@.len(),
                arr@.to_multiset() == old(arr)@.to_multiset(),
                forall|p: int|
                    0 <= p < old(arr)@.len() && !(lo <= p < hi) ==> arr@[p] == old(arr)@[p],
                forall|p: int, q: int| lo <= p < q < i ==> arr@[p] <= arr@[q],
                forall|p: int, q: int| lo <= p < i <= q < hi ==> arr@[p] <= arr@[q],
                forall|q: int| i <= q < j ==> arr@[i as int] <= arr@[q],
            decreases hi - j,
        {
            if arr[j] < arr[i] {
                swap_at(arr, i, j);
            }
            j = j + 1;
        }
        i = i + 1;
    }
}

/// Moves everything below the pivot ahead of it, the pivot next, and the
/// rest after, returning the pivot's final offset from `lo`.
fn partition(arr: &mut Vec<i32>, lo: usize, hi: usize, pivot: i32) -> (pi: usize)
    requires
        lo < hi <= old(arr)@.len(),
    ensures
        final(arr)@.len() == old(arr)@.len(),
        final(arr)@.to_multiset() == old(arr)@.to_multiset(),
        forall|p: int|
            0 <= p < old(arr)@.len() && !(lo <= p < hi) ==> final(arr)@[p] == old(arr)@[p],
        lo <= lo + pi < hi,
{
    let n = arr.len();
    // move the pivot, or failing that the last element, to the end
    let mut pivot_index = hi - 1;
    let mut s = lo;
    while s < hi
        invariant
            lo <= s <= hi <= n,
            n == arr@.len(),
            arr@ == old(arr)@,
            lo <= pivot_index < hi,
        decreases hi - s,
    {
        if arr[s] == pivot {
            pivot_index = s;
            s = hi;
        } else {
            s = s + 1;
        }
    }
    swap_at(arr, pivot_index, hi - 1);

    let mut i = lo;
    let mut j = hi - 1;
    while i < j
        invariant
            lo <= i <= j < hi <= n,
            n == arr@.len(),
            arr@.len() == old(arr)@.len(),
            arr@.to_multiset() == old(arr)@.to_multiset(),
            forall|p: int|
                0 <= p < old(arr)@.len() && !(lo <= p < hi) ==> arr@[p] == old(arr)@[p],
        decreases j - i,
    {
        if arr[i] < pivot {
            i = i + 1;
        } else if arr[j] >= pivot {
            j = j - 1;
        } else {
            swap_at(arr, i, j);
            i = i + 1;
        }
    }
    swap_at(arr, i, hi - 1);
    i - lo
}

/// The median of the medians of the window's blocks of five, chosen as
/// the pivot: each block is sorted and its median gathered at the front
/// of the window, then the middle one is selected.
fn select_median_of_medians(arr: &mut Vec<i32>, lo: usize, hi: usize) -> (pivot: i32)
    requires
        lo <= hi <= old(arr)@.len(),
        hi - lo > 5,
    ensures
        final(arr)@.len() == old(arr)@.len(),
        final(arr)@.to_multiset() == old(arr)@.to_multiset(),
        forall|p: int|
            0 <= p < old(arr)@.len() && !(lo <= p < hi) ==> final(arr)@[p] == old(arr)@[p],
    decreases hi - lo - 1,
{
    let n = arr.len();
    let mut blocks: usize = 0;
    let mut c = lo;
    while c < hi
        invariant
            lo <= c <= hi <= n,
            n == arr@.len(),
            arr@.len() == old(arr)@.len(),
            arr@.to_multiset() == old(arr)@.to_multiset(),
            forall|p: int|
                0 <= p < old(arr)@.len() && !(lo <= p < hi) ==> arr@[p] == old(arr)@[p],
            hi - lo > 5,
            lo + blocks <= c,
            c > lo ==> blocks >= 1,
            blocks >= 1 ==> c >= lo + blocks + 4,
        decreases hi - c,
    {
        let cend = if hi - c > 5 {
            c + 5
        } else {
            hi
        };
        sort_range(arr, c, cend);
        let mid = c + (cend - c) / 2;
        swap_at(arr, lo + blocks, mid);
        blocks = blocks + 1;
        c = cend;
    }
    quickselect_range(arr, lo, lo + blocks, blocks / 2)
}

/// The `k`-th element (by position after arranging) of `arr[lo..hi]`.
fn quickselect_range(arr: &mut Vec<i32>, lo: usize, hi: usize, k: usize) -> (res: i32)
    requires
        lo <= hi <= old(arr)@.len(),
        k < hi - lo,
    ensures
        final(arr)@.len() == old(arr)@.len(),
        final(arr)@.to_multiset() == old(arr)@.to_multiset(),
        forall|p: int|
            0 <= p < old(arr)@.len() && !(lo <= p < hi) ==> final(arr)@[p] == old(arr)@[p],
    decreases hi - lo,
{
    let n = arr.len();
    if hi - lo <= 5 {
        sort_range(arr, lo, hi);
        return arr[lo + k];
    }

    let pivot = select_median_of_medians(arr, lo, hi);

    let pi = partition(arr, lo, hi, pivot);
    if k == pi {
        arr[lo + pi]
    } else if k < pi {
        quickselect_range(arr, lo, lo + pi, k)
    } else {
        quickselect_range(arr, lo + pi + 1, hi, k - pi - 1)
    }
}

/// The `k`-th smallest element of the vector, rearranging it in place;
/// the vector keeps exactly its elements.
pub fn quickselect(arr: &mut Vec<i32>, k: usize) -> (res: i32)
    requires
        k < old(arr)@.len(),
    ensures
        final(arr)@.len() == old(arr)@.len(),
        final(arr)@.to_multiset() == old(arr)@.to_multiset(),
{
    let n = arr.len();
    quickselect_range(arr, 0, n, k)
}

} // verus!
