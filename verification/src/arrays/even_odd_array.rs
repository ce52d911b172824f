//! Partitioning an array so every even number precedes every odd one.

use vstd::prelude::*;

verus! {

/// Rearranges `arr` in place so that all even values come before all odd
/// values, keeping exactly the original elements.
pub fn even_odd(arr: &mut Vec<i32>)
    ensures
        final(arr)@.len() == old(arr)@.len(),
        final(arr)@.to_multiset() == old(arr)@.to_multiset(),
        forall|i: int, j: int|
            0 <= i < j < final(arr)@.len() ==> !(#[trigger] final(arr)@[i] % 2 != 0
                && #[trigger] final(arr)@[j] % 2 == 0),
{
    let n = arr.len();
    if n == 0 {
        return;
    }
    let mut next_even: usize = 0;
    let mut next_odd: usize = n - 1;

    while next_even < next_odd
        invariant
            n == arr@.len(),
            n == old(arr)@.len(),
            next_even <= next_odd < n,
            arr@.to_multiset() == old(arr)@.to_multiset(),
            forall|i: int| 0 <= i < next_even ==> #[trigger] arr@[i] % 2 == 0,
            forall|i: int| next_odd < i < n ==> #[trigger] arr@[i] % 2 != 0,
        decreases next_odd - next_even,
    {
        if arr[next_even] % 2 == 0 {
            next_even = next_even + 1;
        } else {
            let ghost before = arr@;
            let a = arr[next_odd];
            let b = arr[next_even];
            arr[next_odd] = b;
            arr[next_even] = a;
            proof {
                crate::permutation::lemma_swap_multiset(
                    before,
                    next_odd as int,
                    next_even as int,
                );
            }
            next_odd = next_odd - 1;
        }
    }
}

} // verus!
