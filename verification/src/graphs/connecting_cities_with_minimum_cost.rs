//! Connecting `n` cities, numbered from 1, at minimum total cost: Prim's
//! algorithm from city 1, with a sorted vector standing in for the heap.

use vstd::prelude::*;
use std::collections::HashMap;
use std::collections::HashSet;

verus! {

/// Whether a sequence of cost/city pairs is sorted by cost, then city.
pub open spec fn sorted_pairs(s: Seq<(u32, u32)>) -> bool {
    forall|i: int, j: int|
        0 <= i < j < s.len() ==> ((#[trigger] s[i]).0 < (#[trigger] s[j]).0 || (s[i].0 == s[j].0
            && s[i].1 <= s[j].1))
}

/// Inserts a pair into a cost-sorted vector, keeping it sorted.
fn push_sorted(v: &mut Vec<(u32, u32)>, x: (u32, u32))
    requires
        sorted_pairs(old(v)@),
        old(v)@.len() < usize::MAX,
    ensures
        sorted_pairs(final(v)@),
        final(v)@.len() == old(v)@.len() + 1,
{
    let n = v.len();
    let mut i: usize = 0;
    while i < n && (v[i].0 < x.0 || (v[i].0 == x.0 && v[i].1 <= x.1))
        invariant
            i <= n,
            n == v@.len(),
            v@ == old(v)@,
            forall|j: int|
                0 <= j < i ==> ((#[trigger] v@[j]).0 < x.0 || (v@[j].0 == x.0 && v@[j].1
                    <= x.1)),
        decreases n - i,
    {
        i = i + 1;
    }
    v.insert(i, x);
    proof {
        assert(sorted_pairs(v@)) by {
            assert(forall|j: int|
                i <= j < old(v)@.len() ==> ((#[trigger] old(v)@[j]).0 > x.0 || (old(v)@[j].0
                    == x.0 && old(v)@[j].1 > x.1)));
        }
    }
}

/// The least cost of connecting all `n` cities through the given
/// undirected weighted connections, growing a tree from city 1; `None`
/// when they cannot all be reached. Costs add with saturation.
pub fn minimum_cost(n: u32, connections: Vec<(u32, u32, u32)>) -> (res: Option<u32>)
    ensures
        n == 0 ==> res == Some(0u32),
{
    let mut graph: HashMap<u32, Vec<(u32, u32)>> = HashMap::new();
    let m = connections.len();
    let mut i: usize = 0;
    while i < m
        invariant
            i <= m,
            m == connections@.len(),
        decreases m - i,
    {
        let (u, v, cost) = connections[i];
        let mut lu = match graph.remove(&u) {
            Some(l) => l,
            None => Vec::new(),
        };
        if lu.len() < usize::MAX {
            lu.push((cost, v));
        }
        graph.insert(u, lu);
        let mut lv = match graph.remove(&v) {
            Some(l) => l,
            None => Vec::new(),
        };
        if lv.len() < usize::MAX {
            lv.push((cost, u));
        }
        graph.insert(v, lv);
        i = i + 1;
    }

    let mut min_heap: Vec<(u32, u32)> = Vec::new();
    min_heap.push((0, 1));
    let mut visited: HashSet<u32> = HashSet::new();
    let mut total_cost: u32 = 0;

    // every heap entry stems from one adjacency entry, so the pop count
    // can never pass this bound; the guard only closes the loop for the
    // prover
    let cap: u128 = 2 * (m as u128) + 2;
    let mut steps: u128 = 0;
    while steps < cap && min_heap.len() > 0 && visited.len() < n as usize
        invariant
            steps <= cap,
            sorted_pairs(min_heap@),
            n == 0 ==> total_cost == 0 && visited@.len() == 0,
        decreases cap - steps,
    {
        steps = steps + 1;
        let ghost h0 = min_heap@;
        let (cost, u) = min_heap.remove(0);
        proof {
            assert(min_heap@ =~= h0.subrange(1, h0.len() as int));
            assert(sorted_pairs(min_heap@));
        }
        if !visited.contains(&u) {
            visited.insert(u);
            total_cost = total_cost.saturating_add(cost);
            proof {
                assert(n == 0 ==> visited@.len() >= 1);
            }
            match graph.get(&u) {
                Some(adj) => {
                    let an = adj.len();
                    let mut j: usize = 0;
                    let mut to_push: Vec<(u32, u32)> = Vec::new();
                    while j < an
                        invariant
                            j <= an,
                            an == adj@.len(),
                            to_push@.len() <= j,
                        decreases an - j,
                    {
                        let (edge_cost, v) = adj[j];
                        if !visited.contains(&v) && to_push.len() < usize::MAX {
                            to_push.push((edge_cost, v));
                        }
                        j = j + 1;
                    }
                    let pn = to_push.len();
                    let mut p: usize = 0;
                    while p < pn
                        invariant
                            p <= pn,
                            pn == to_push@.len(),
                            sorted_pairs(min_heap@),
                        decreases pn - p,
                    {
                        if min_heap.len() < usize::MAX {
                            push_sorted(&mut min_heap, to_push[p]);
                        }
                        p = p + 1;
                    }
                },
                None => {},
            }
        }
    }

    let vn = visited.len();
    if vn == n as usize {
        Some(total_cost)
    } else {
        None
    }
}

} // verus!
