//! Fisher–Yates shuffling: each position is exchanged with a uniformly
//! drawn position at or after it.

use vstd::prelude::*;

verus! {

/// Exchanges the elements at `i` and `r`.
fn swap_elems<T>(a: &mut Vec<T>, i: usize, r: usize)
    requires
        i <= r < old(a)@.len(),
    ensures
        final(a)@ == old(a)@.update(i as int, old(a)@[r as int]).update(
            r as int,
            old(a)@[i as int],
        ),
{
    if i == r {
        proof {
            assert(a@ =~= old(a)@.update(i as int, old(a)@[r as int]).update(
                r as int,
                old(a)@[i as int],
            ));
        }
        return;
    }
    let x = a.remove(r);
    let y = a.remove(i);
    a.insert(i, x);
    a.insert(r, y);
    proof {
        assert(a@ =~= old(a)@.update(i as int, old(a)@[r as int]).update(
            r as int,
            old(a)@[i as int],
        ));
    }
}

/// Shuffles the vector in place, keeping exactly its elements.
pub fn shuffle<T>(a: &mut Vec<T>)
    ensures
        final(a)@.len() == old(a)@.len(),
        final(a)@.to_multiset() == old(a)@.to_multiset(),
{
    let n = a.len();
    let mut i: usize = 0;
    while i < n
        invariant
            i <= n,
            n == a@.len(),
            a@.to_multiset() == old(a)@.to_multiset(),
        decreases n - i,
    {
        let r = crate::randomness::rand_range(i, n);
        let ghost before = a@;
        swap_elems(a, i, r);
        proof {
            crate::permutation::lemma_swap_multiset(before, i as int, r as int);
        }
        i = i + 1;
    }
}

} // verus!
