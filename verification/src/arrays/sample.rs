//! Reservoir sampling from a stream of items.

use vstd::prelude::*;

verus! {

/// Draws a sample of up to `k` items from the stream, online: each kept
/// item is one of the stream's items, and the sample is as large as the
/// stream allows.
pub fn sample<T: Copy>(iterator: Vec<T>, k: usize) -> (res: Vec<T>)
    ensures
        res@.len() == if iterator@.len() < k {
            iterator@.len() as int
        } else {
            k as int
        },
        forall|i: int|
            0 <= i < res@.len() ==> iterator@.to_multiset().count(#[trigger] res@[i]) > 0,
{
    broadcast use vstd::seq_lib::to_multiset_contains;

    let n = iterator.len();
    let mut reservoir: Vec<T> = Vec::new();
    let mut item_count: usize = 0;
    while item_count < n
        invariant
            item_count <= n,
            n == iterator@.len(),
            reservoir@.len() == if item_count < k {
                item_count as int
            } else {
                k as int
            },
            forall|i: int|
                0 <= i < reservoir@.len() ==> iterator@.to_multiset().count(
                    #[trigger] reservoir@[i],
                ) > 0,
        decreases n - item_count,
    {
        let item = iterator[item_count];
        proof {
            assert(iterator@.contains(item)) by {
                assert(iterator@[item_count as int] == item);
            }
            vstd::seq_lib::to_multiset_contains(iterator@, item);
        }
        item_count = item_count + 1;

        if item_count <= k {
            reservoir.push(item);
        } else {
            let replace_index = crate::randomness::rand_range(0, item_count);
            if replace_index < k {
                reservoir[replace_index] = item;
            }
        }
    }
    reservoir
}

} // verus!
