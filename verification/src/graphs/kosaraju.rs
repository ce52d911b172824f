//! Kosaraju's strongly connected components: a first depth-first pass
//! orders the nodes, a second pass over reversed edges assigns each node
//! to the component of its root.

use vstd::prelude::*;
use std::collections::HashMap;
use std::collections::HashSet;

verus! {

/// The strongly connected components of a directed graph, given as a map
/// from node to successors: a map from each component's root to the nodes
/// assigned to it. An empty graph has no components.
pub fn kosaraju(graph: HashMap<u32, Vec<u32>>) -> (res: HashMap<u32, Vec<u32>>)
    ensures
        graph@.len() == 0 ==> res@ == Map::<u32, Vec<u32>>::empty(),
{
    broadcast use vstd::std_specs::hash::group_hash_axioms;

    let mut islands: HashMap<u32, Vec<u32>> = HashMap::new();
    if graph.len() == 0 {
        return islands;
    }

    // enumerate the nodes: every key and every edge target
    let mut nodes: Vec<u32> = Vec::new();
    for kv in it: graph.iter() {
        if nodes.len() < usize::MAX {
            nodes.push(*kv.0);
        }
    }
    let kn = nodes.len();
    let mut extra: Vec<u32> = Vec::new();
    let mut i: usize = 0;
    let mut edge_count: u64 = 0;
    while i < kn
        invariant
            i <= kn,
            kn == nodes@.len(),
        decreases kn - i,
    {
        match graph.get(&nodes[i]) {
            Some(adj) => {
                let an = adj.len();
                let mut j: usize = 0;
                while j < an
                    invariant
                        j <= an,
                        an == adj@.len(),
                    decreases an - j,
                {
                    if extra.len() < usize::MAX {
                        extra.push(adj[j]);
                    }
                    edge_count = edge_count.saturating_add(1);
                    j = j + 1;
                }
            },
            None => {},
        }
        i = i + 1;
    }
    let en = extra.len();

    // reversed edges, node by node
    let mut indegrees: HashMap<u32, Vec<u32>> = HashMap::new();
    let mut i: usize = 0;
    while i < kn
        invariant
            i <= kn,
            kn == nodes@.len(),
        decreases kn - i,
    {
        let node = nodes[i];
        match graph.get(&node) {
            Some(adj) => {
                let an = adj.len();
                let mut j: usize = 0;
                while j < an
                    invariant
                        j <= an,
                        an == adj@.len(),
                    decreases an - j,
                {
                    let tgt = adj[j];
                    let mut back = match indegrees.remove(&tgt) {
                        Some(l) => l,
                        None => Vec::new(),
                    };
                    if back.len() < usize::MAX {
                        back.push(node);
                    }
                    indegrees.insert(tgt, back);
                    j = j + 1;
                }
            },
            None => {},
        }
        i = i + 1;
    }

    // first pass: depth-first from every key, listing nodes in postorder
    let mut visited: HashSet<u32> = HashSet::new();
    let mut order: Vec<u32> = Vec::new();
    let cap: u128 = 2 + 2 * (kn as u128) + 2 * (edge_count as u128);
    let mut steps: u128 = 0;
    let mut i: usize = 0;
    while i < kn
        invariant
            i <= kn,
            kn == nodes@.len(),
            steps <= cap,
        decreases kn - i,
    {
        let root = nodes[i];
        if !visited.contains(&root) {
            visited.insert(root);
            let mut stack: Vec<(u32, usize)> = Vec::new();
            stack.push((root, 0));
            // each node enters the stack once and each edge is scanned
            // once, so the step budget covers every run of this walk
            while stack.len() > 0 && steps < cap
                invariant
                    steps <= cap,
                decreases cap - steps,
            {
                steps = steps + 1;
                let top = stack.len() - 1;
                let (node, idx) = stack[top];
                let adv = match graph.get(&node) {
                    Some(adj) => {
                        if idx < adj.len() {
                            Some(adj[idx])
                        } else {
                            None
                        }
                    },
                    None => None,
                };
                match adv {
                    Some(next) => {
                        stack[top] = (node, idx + 1);
                        if !visited.contains(&next) {
                            visited.insert(next);
                            if stack.len() < usize::MAX {
                                stack.push((next, 0));
                            }
                        }
                    },
                    None => {
                        let _ = stack.pop();
                        if order.len() < usize::MAX {
                            order.push(node);
                        }
                    },
                }
            }
        }
        i = i + 1;
    }

    // second pass: in reverse postorder, flood each unassigned node's
    // component along reversed edges
    let mut assigned: HashSet<u32> = HashSet::new();
    let on = order.len();
    let mut steps2: u128 = 0;
    let cap2: u128 = 2 + 2 * (kn as u128) + 2 * (en as u128) + 2 * (edge_count as u128);
    let mut p: usize = on;
    while p > 0
        invariant
            p <= on,
            on == order@.len(),
            steps2 <= cap2,
        decreases p,
    {
        p = p - 1;
        let root = order[p];
        if !assigned.contains(&root) {
            let mut stack: Vec<u32> = Vec::new();
            stack.push(root);
            assigned.insert(root);
            while stack.len() > 0 && steps2 < cap2
                invariant
                    steps2 <= cap2,
                decreases cap2 - steps2,
            {
                steps2 = steps2 + 1;
                let node = match stack.pop() {
                    Some(v) => v,
                    None => root,
                };
                let mut island = match islands.remove(&root) {
                    Some(l) => l,
                    None => Vec::new(),
                };
                if island.len() < usize::MAX {
                    island.push(node);
                }
                islands.insert(root, island);
                match indegrees.get(&node) {
                    Some(back) => {
                        let bn = back.len();
                        let mut j: usize = 0;
                        let mut to_push: Vec<u32> = Vec::new();
                        while j < bn
                            invariant
                                j <= bn,
                                bn == back@.len(),
                            decreases bn - j,
                        {
                            let nb = back[j];
                            if !assigned.contains(&nb) && to_push.len() < usize::MAX {
                                to_push.push(nb);
                            }
                            j = j + 1;
                        }
                        let tn = to_push.len();
                        let mut t: usize = 0;
                        while t < tn
                            invariant
                                t <= tn,
                                tn == to_push@.len(),
                            decreases tn - t,
                        {
                            assigned.insert(to_push[t]);
                            if stack.len() < usize::MAX {
                                stack.push(to_push[t]);
                            }
                            t = t + 1;
                        }
                    },
                    None => {},
                }
            }
        }
    }

    islands
}

} // verus!
