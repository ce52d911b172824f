//! A breadth-style walk of a rooted organisation chart: the root manages
//! itself, and subordinates are listed before their peers' subtrees.

use vstd::prelude::*;
use std::collections::HashMap;
use std::collections::VecDeque;

verus! {

/// Walks the chart of `(employee, manager, name)` rows from the root (the
/// row whose employee manages itself, the last such row winning) and lists
/// each reached employee with its depth, children first. Charts without a
/// root, and charts whose manager relation is not a tree over distinct
/// employees, yield nothing.
pub fn rooted_topological_sort(chart: &[(u32, u32, String)]) -> (res: Option<Vec<(u64, String)>>)
    ensures
        (forall|i: int| 0 <= i < chart@.len() ==> (#[trigger] chart@[i]).0 != chart@[i].1)
            ==> res is None,
        res is Some ==> exists|i: int|
            0 <= i < chart@.len() && (#[trigger] chart@[i]).0 == chart@[i].1,
{
    broadcast use vstd::std_specs::hash::group_hash_axioms;

    let mut emp_to_mgr: HashMap<u32, u32> = HashMap::new();
    let mut mgr_to_emp: HashMap<u32, Vec<u32>> = HashMap::new();
    let mut emp_to_name: HashMap<u32, String> = HashMap::new();

    let mut ceo: Option<u32> = None;
    let n = chart.len();
    let mut i: usize = 0;
    while i < n
        invariant
            i <= n,
            n == chart@.len(),
            ceo is Some ==> exists|j: int|
                0 <= j < i && (#[trigger] chart@[j]).0 == chart@[j].1,
            (forall|j: int| 0 <= j < i ==> (#[trigger] chart@[j]).0 != chart@[j].1) ==> ceo
                is None,
        decreases n - i,
    {
        let (emp_id, mgr_id, _) = &chart[i];
        let emp_id = *emp_id;
        let mgr_id = *mgr_id;
        if emp_id == mgr_id {
            ceo = Some(emp_id);
            proof {
                assert(chart@[i as int].0 == chart@[i as int].1);
            }
        } else {
            let mut reports = match mgr_to_emp.remove(&mgr_id) {
                Some(l) => l,
                None => Vec::new(),
            };
            if reports.len() < usize::MAX {
                reports.push(emp_id);
            }
            mgr_to_emp.insert(mgr_id, reports);
            emp_to_mgr.insert(emp_id, mgr_id);
        }
        let name = chart[i].2.clone();
        emp_to_name.insert(chart[i].0, name);
        i = i + 1;
    }

    let root = match ceo {
        Some(c) => c,
        None => {
            return None;
        },
    };

    let mut q: VecDeque<(u32, u64)> = VecDeque::new();
    q.push_back((root, 0));

    let mut res: Vec<(u64, String)> = Vec::new();

    // on a rooted tree each employee enters the queue once, so at most
    // one pop per chart row and one for the root; needing more means the
    // chart is no tree, and it is rejected
    let mut pops: u128 = 0;
    let mut ok = true;
    while q.len() > 0 && ok && pops <= n as u128
        invariant
            pops <= n as u128 + 1,
        decreases n as u128 + 1 - pops,
    {
        pops = pops + 1;
        match q.pop_front() {
            Some((emp_id, depth)) => {
                match emp_to_name.get(&emp_id) {
                    Some(name) => {
                        if res.len() < usize::MAX {
                            res.push((depth, name.clone()));
                        }
                    },
                    None => {
                        ok = false;
                    },
                }
                if ok {
                    match mgr_to_emp.get(&emp_id) {
                        Some(reports) => {
                            let rn = reports.len();
                            let mut k: usize = 0;
                            while k < rn
                                invariant
                                    k <= rn,
                                    rn == reports@.len(),
                                decreases rn - k,
                            {
                                if q.len() < usize::MAX {
                                    q.push_front((reports[k], depth.saturating_add(1)));
                                }
                                k = k + 1;
                            }
                        },
                        None => {},
                    }
                }
            },
            None => {
                ok = false;
            },
        }
    }
    if q.len() > 0 && ok {
        // ran out of pops with work left: the chart is no tree
        return None;
    }
    if !ok {
        return None;
    }
    Some(res)
}

} // verus!
