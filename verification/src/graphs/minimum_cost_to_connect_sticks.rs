//! Connecting sticks at the cost of their summed lengths: always merge
//! the two shortest, as a min-heap would serve them.

use vstd::prelude::*;

verus! {

/// Whether a sequence is in non-decreasing order.
pub open spec fn sorted_u32(s: Seq<u32>) -> bool {
    forall|i: int, j: int| 0 <= i < j < s.len() ==> s[i] <= s[j]
}

/// Addition capped at the largest length.
pub open spec fn sat_add(a: u32, b: u32) -> u32 {
    if a + b > u32::MAX {
        u32::MAX
    } else {
        (a + b) as u32
    }
}

/// A value placed before the first element not below it.
pub open spec fn insert_sorted_spec(s: Seq<u32>, x: u32) -> Seq<u32>
    decreases s.len(),
{
    if s.len() == 0 {
        seq![x]
    } else if s[0] < x {
        seq![s[0]] + insert_sorted_spec(s.drop_first(), x)
    } else {
        seq![x] + s
    }
}

/// The sticks arranged in non-decreasing order, by repeated insertion.
pub open spec fn sort_spec(s: Seq<u32>) -> Seq<u32>
    decreases s.len(),
{
    if s.len() == 0 {
        Seq::empty()
    } else {
        insert_sorted_spec(sort_spec(s.drop_last()), s.last())
    }
}

/// The total cost of merging a sorted pile of sticks: join the two
/// shortest, pay their sum, and put the joined stick back, until one
/// stick remains.
pub open spec fn sticks_cost(s: Seq<u32>, acc: u32) -> u32
    decreases s.len(),
    via sticks_cost_decreases
{
    if s.len() <= 1 {
        acc
    } else {
        let c = sat_add(s[0], s[1]);
        sticks_cost(
            insert_sorted_spec(s.subrange(2, s.len() as int), c),
            sat_add(acc, c),
        )
    }
}

#[via_fn]
proof fn sticks_cost_decreases(s: Seq<u32>, acc: u32) {
    if s.len() > 1 {
        lemma_insert_sorted_len(s.subrange(2, s.len() as int), sat_add(s[0], s[1]));
    }
}

/// Sorting keeps the count of sticks.
pub proof fn lemma_sort_spec_len(s: Seq<u32>)
    ensures
        sort_spec(s).len() == s.len(),
    decreases s.len(),
{
    if s.len() > 0 {
        lemma_sort_spec_len(s.drop_last());
        lemma_insert_sorted_len(sort_spec(s.drop_last()), s.last());
    }
}

/// Inserting grows a sequence by one.
pub proof fn lemma_insert_sorted_len(s: Seq<u32>, x: u32)
    ensures
        insert_sorted_spec(s, x).len() == s.len() + 1,
    decreases s.len(),
{
    if s.len() > 0 && s[0] < x {
        lemma_insert_sorted_len(s.drop_first(), x);
    }
}

/// Where the first `i` elements are below `x` and the next is not, the
/// value lands exactly at position `i`.
proof fn lemma_insert_sorted_at(s: Seq<u32>, x: u32, i: int)
    requires
        0 <= i <= s.len(),
        forall|j: int| 0 <= j < i ==> s[j] < x,
        i < s.len() ==> s[i] >= x,
    ensures
        insert_sorted_spec(s, x) == s.subrange(0, i) + seq![x] + s.subrange(i, s.len() as int),
    decreases i,
{
    if i == 0 {
        if s.len() == 0 {
            assert(insert_sorted_spec(s, x) =~= s.subrange(0, 0) + seq![x] + s.subrange(
                0,
                s.len() as int,
            ));
        } else {
            assert(insert_sorted_spec(s, x) =~= s.subrange(0, 0) + seq![x] + s.subrange(
                0,
                s.len() as int,
            ));
        }
    } else {
        let t = s.drop_first();
        assert(forall|j: int| 0 <= j < i - 1 ==> t[j] < x);
        lemma_insert_sorted_at(t, x, i - 1);
        assert(insert_sorted_spec(s, x) =~= s.subrange(0, i) + seq![x] + s.subrange(
            i,
            s.len() as int,
        )) by {
            assert(t.subrange(0, i - 1) =~= s.subrange(1, i));
            assert(t.subrange(i - 1, t.len() as int) =~= s.subrange(i, s.len() as int));
        }
    }
}

/// Inserts a value into a sorted vector, keeping it sorted.
fn insert_sorted(v: &mut Vec<u32>, x: u32)
    requires
        sorted_u32(old(v)@),
        old(v)@.len() < usize::MAX,
    ensures
        sorted_u32(final(v)@),
        final(v)@ == insert_sorted_spec(old(v)@, x),
        final(v)@.len() == old(v)@.len() + 1,
{
    let n = v.len();
    let mut i: usize = 0;
    while i < n && v[i] < x
        invariant
            i <= n,
            n == v@.len(),
            v@ == old(v)@,
            forall|j: int| 0 <= j < i ==> v@[j] < x,
        decreases n - i,
    {
        i = i + 1;
    }
    v.insert(i, x);
    proof {
        lemma_insert_sorted_at(old(v)@, x, i as int);
        assert(v@ =~= old(v)@.subrange(0, i as int) + seq![x] + old(v)@.subrange(
            i as int,
            old(v)@.len() as int,
        ));
        assert(sorted_u32(v@)) by {
            assert(forall|j: int| 0 <= j < i ==> old(v)@[j] < x);
            assert(forall|j: int| i <= j < old(v)@.len() ==> x <= old(v)@[j]);
        }
    }
}

/// The total cost of merging all sticks: repeatedly join the two shortest
/// into one, paying their sum, until one stick remains. Sums saturate.
pub fn minimum_cost(sticks: &[u32]) -> (total: u32)
    ensures
        total == sticks_cost(sort_spec(sticks@), 0),
        sticks@.len() <= 1 ==> total == 0,
{
    let n = sticks.len();
    let mut heap: Vec<u32> = Vec::new();
    let mut i: usize = 0;
    proof {
        assert(sticks@.subrange(0, 0) =~= Seq::<u32>::empty());
    }
    while i < n
        invariant
            i <= n,
            n == sticks@.len(),
            sorted_u32(heap@),
            heap@.len() == i,
            heap@ == sort_spec(sticks@.subrange(0, i as int)),
        decreases n - i,
    {
        insert_sorted(&mut heap, sticks[i]);
        i = i + 1;
        proof {
            let p = sticks@.subrange(0, i as int);
            assert(p.drop_last() =~= sticks@.subrange(0, i - 1));
            assert(p.last() == sticks@[i - 1]);
        }
    }
    proof {
        assert(sticks@.subrange(0, n as int) =~= sticks@);
        lemma_sort_spec_len(sticks@);
    }

    let mut total_cost: u32 = 0;
    while heap.len() > 1
        invariant
            sorted_u32(heap@),
            sticks_cost(heap@, total_cost) == sticks_cost(sort_spec(sticks@), 0),
            sort_spec(sticks@).len() <= 1 ==> total_cost == 0 && heap@.len() <= 1,
        decreases heap@.len(),
    {
        let ghost h0 = heap@;
        let top = heap.remove(0);
        let ghost h1 = heap@;
        let next_top = heap.remove(0);
        let cost = top.saturating_add(next_top);
        total_cost = total_cost.saturating_add(cost);
        proof {
            assert(h1 =~= h0.subrange(1, h0.len() as int));
            assert(heap@ =~= h0.subrange(2, h0.len() as int));
            assert(sorted_u32(heap@));
        }
        insert_sorted(&mut heap, cost);
    }
    total_cost
}

} // verus!
