//! Merge sort over a range of a vector.

use vstd::prelude::*;

verus! {

/// Non-decreasing order over a window of a sequence.
pub open spec fn sorted_between(s: Seq<i64>, lo: int, hi: int) -> bool {
    forall|i: int, j: int| lo <= i < j < hi ==> s[i] <= s[j]
}

/// Merges the two sorted halves `v[lo..mid]` and `v[mid..hi]` into one
/// sorted window, keeping exactly its elements and touching nothing else.
fn merge(v: &mut Vec<i64>, lo: usize, mid: usize, hi: usize)
    requires
        lo <= mid <= hi <= old(v)@.len(),
        sorted_between(old(v)@, lo as int, mid as int),
        sorted_between(old(v)@, mid as int, hi as int),
    ensures
        final(v)@.len() == old(v)@.len(),
        sorted_between(final(v)@, lo as int, hi as int),
        final(v)@.subrange(lo as int, hi as int).to_multiset() == old(v)@.subrange(
            lo as int,
            hi as int,
        ).to_multiset(),
        forall|i: int|
            0 <= i < old(v)@.len() && !(lo <= i < hi) ==> final(v)@[i] == old(v)@[i],
{
    broadcast use vstd::seq_lib::to_multiset_build;
    broadcast use vstd::seq_lib::lemma_multiset_commutative;
    broadcast use vstd::multiset::group_multiset_axioms;

    let n = v.len();
    let mut left: Vec<i64> = Vec::new();
    let mut i: usize = lo;
    while i < mid
        invariant
            lo <= i <= mid <= n,
            n == v@.len(),
            v@ == old(v)@,
            left@ == v@.subrange(lo as int, i as int),
        decreases mid - i,
    {
        left.push(v[i]);
        i = i + 1;
        proof {
            assert(left@ =~= v@.subrange(lo as int, i as int));
        }
    }
    let mut right: Vec<i64> = Vec::new();
    let mut j: usize = mid;
    while j < hi
        invariant
            mid <= j <= hi <= n,
            n == v@.len(),
            v@ == old(v)@,
            right@ == v@.subrange(mid as int, j as int),
        decreases hi - j,
    {
        right.push(v[j]);
        j = j + 1;
        proof {
            assert(right@ =~= v@.subrange(mid as int, j as int));
        }
    }
    let llen = left.len();
    let rlen = right.len();
    let mut l_idx: usize = 0;
    let mut r_idx: usize = 0;
    let mut k: usize = lo;
    proof {
        let e = Seq::<i64>::empty();
        assert(v@.subrange(lo as int, lo as int) =~= e);
        assert(left@.subrange(0, 0) =~= e);
        assert(right@.subrange(0, 0) =~= e);
        assert forall|x: i64| e.to_multiset().count(x) == 0 by {
            vstd::seq_lib::to_multiset_contains(e, x);
        }
        assert(e.to_multiset().add(e.to_multiset()) =~= e.to_multiset());
    }
    while k < hi
        invariant
            lo <= k <= hi <= n,
            n == v@.len(),
            v@.len() == old(v)@.len(),
            llen == left@.len(),
            rlen == right@.len(),
            left@ == old(v)@.subrange(lo as int, mid as int),
            right@ == old(v)@.subrange(mid as int, hi as int),
            sorted_between(left@, 0, llen as int),
            sorted_between(right@, 0, rlen as int),
            l_idx <= llen,
            r_idx <= rlen,
            k == lo + l_idx + r_idx,
            hi - k == (llen - l_idx) + (rlen - r_idx),
            sorted_between(v@, lo as int, k as int),
            v@.subrange(lo as int, k as int).to_multiset() == left@.subrange(
                0,
                l_idx as int,
            ).to_multiset().add(right@.subrange(0, r_idx as int).to_multiset()),
            forall|p: int| 0 <= p < n && !(lo <= p < hi) ==> v@[p] == old(v)@[p],
            k > lo && l_idx < llen ==> v@[k - 1] <= left@[l_idx as int],
            k > lo && r_idx < rlen ==> v@[k - 1] <= right@[r_idx as int],
        decreases hi - k,
    {
        let ghost prefix = v@.subrange(lo as int, k as int);
        let take_left = if r_idx == rlen {
            true
        } else if l_idx < llen {
            left[l_idx] < right[r_idx]
        } else {
            false
        };
        if take_left {
            let x = left[l_idx];
            v[k] = x;
            proof {
                let lpre = left@.subrange(0, l_idx as int);
                let rpre = right@.subrange(0, r_idx as int);
                assert(v@.subrange(lo as int, k + 1) =~= prefix.push(x));
                assert(left@.subrange(0, l_idx + 1) =~= lpre.push(x));
                vstd::seq_lib::to_multiset_build(prefix, x);
                vstd::seq_lib::to_multiset_build(lpre, x);
                assert(prefix.to_multiset().insert(x) =~= lpre.to_multiset().insert(x).add(
                    rpre.to_multiset(),
                ));
            }
            l_idx = l_idx + 1;
        } else {
            let x = right[r_idx];
            v[k] = x;
            proof {
                let lpre = left@.subrange(0, l_idx as int);
                let rpre = right@.subrange(0, r_idx as int);
                assert(v@.subrange(lo as int, k + 1) =~= prefix.push(x));
                assert(right@.subrange(0, r_idx + 1) =~= rpre.push(x));
                vstd::seq_lib::to_multiset_build(prefix, x);
                vstd::seq_lib::to_multiset_build(rpre, x);
                assert(prefix.to_multiset().insert(x) =~= lpre.to_multiset().add(
                    rpre.to_multiset().insert(x),
                ));
            }
            r_idx = r_idx + 1;
        }
        k = k + 1;
    }
    proof {
        assert(left@.subrange(0, llen as int) =~= left@);
        assert(right@.subrange(0, rlen as int) =~= right@);
        assert(left@ + right@ =~= old(v)@.subrange(lo as int, hi as int));
    }
}

/// Sorts the window `v[lo..hi]` in place.
fn merge_sort_range(v: &mut Vec<i64>, lo: usize, hi: usize)
    requires
        lo <= hi <= old(v)@.len(),
    ensures
        final(v)@.len() == old(v)@.len(),
        sorted_between(final(v)@, lo as int, hi as int),
        final(v)@.subrange(lo as int, hi as int).to_multiset() == old(v)@.subrange(
            lo as int,
            hi as int,
        ).to_multiset(),
        forall|i: int|
            0 <= i < old(v)@.len() && !(lo <= i < hi) ==> final(v)@[i] == old(v)@[i],
    decreases hi - lo,
{
    broadcast use vstd::seq_lib::lemma_multiset_commutative;
    broadcast use vstd::multiset::group_multiset_axioms;

    if hi - lo >= 2 {
        let mid = lo + (hi - lo) / 2;
        let ghost v0 = v@;
        merge_sort_range(v, lo, mid);
        let ghost v1 = v@;
        merge_sort_range(v, mid, hi);
        let ghost v2 = v@;
        proof {
            assert(v2.subrange(lo as int, mid as int) =~= v1.subrange(lo as int, mid as int));
            assert(v1.subrange(mid as int, hi as int) =~= v0.subrange(mid as int, hi as int));
            assert(v2.subrange(lo as int, hi as int) =~= v2.subrange(lo as int, mid as int)
                + v2.subrange(mid as int, hi as int));
            assert(v0.subrange(lo as int, hi as int) =~= v0.subrange(lo as int, mid as int)
                + v0.subrange(mid as int, hi as int));
        }
        merge(v, lo, mid, hi);
        proof {
            assert(v@.subrange(lo as int, hi as int).to_multiset() == v0.subrange(
                lo as int,
                hi as int,
            ).to_multiset());
        }
    }
}

/// Sorts the vector in place into non-decreasing order, keeping exactly
/// its elements.
pub fn merge_sort(arr: &mut Vec<i64>)
    ensures
        final(arr)@.len() == old(arr)@.len(),
        sorted_between(final(arr)@, 0, final(arr)@.len() as int),
        final(arr)@.to_multiset() == old(arr)@.to_multiset(),
{
    let n = arr.len();
    merge_sort_range(arr, 0, n);
    proof {
        assert(arr@.subrange(0, n as int) =~= arr@);
        assert(old(arr)@.subrange(0, n as int) =~= old(arr)@);
    }
}

} // verus!
