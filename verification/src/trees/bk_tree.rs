//! A Burkhard–Keller tree for fuzzy string search under the Levenshtein
//! distance: children hang off their parent at their distance from it.

use vstd::prelude::*;
use crate::distances::levenshtein::{lev, levenshtein_distance};

verus! {

/// One tree node: a word and its children, each tagged with its distance
/// from this word.
pub struct Node {
    pub word: String,
    pub children: Vec<(usize, Node)>,
}

/// The tree: possibly empty.
pub struct BkTree {
    pub root: Option<Box<Node>>,
}

/// Words whose length the distance computation accepts.
pub open spec fn word_len_ok(w: Seq<char>) -> bool {
    w.len() < usize::MAX / 2
}

/// Every word in the subtree is short enough to measure against.
pub open spec fn node_wf(n: Node) -> bool
    decreases n,
{
    &&& word_len_ok(n.word@)
    &&& forall|i: int| 0 <= i < n.children@.len() ==> node_wf(#[trigger] n.children@[i].1)
}

impl BkTree {
    /// All stored words are short enough to measure against.
    pub open spec fn wf(&self) -> bool {
        match self.root {
            None => true,
            Some(n) => node_wf(*n),
        }
    }

    /// An empty tree. The distance between words is the Levenshtein
    /// distance.
    pub fn new() -> (t: BkTree)
        ensures
            t.wf(),
            t.root is None,
    {
        BkTree { root: None }
    }

    /// Inserts a word, descending along matching distances; a word at
    /// distance zero from a node is already present and is dropped.
    pub fn insert(&mut self, val: String)
        requires
            old(self).wf(),
            word_len_ok(val@),
        ensures
            final(self).wf(),
            final(self).root is Some,
    {
        let this = self.root.take();
        match this {
            Some(root) => {
                let n = insert_into(*root, val);
                self.root = Some(Box::new(n));
            },
            None => {
                let fresh_children: Vec<(usize, Node)> = Vec::new();
                let node = Node { word: val, children: fresh_children };
                let ghost gn = node;
                self.root = Some(Box::new(node));
                proof {
                    assert(node_wf(gn));
                }
            },
        }
    }

    /// All words at distance at most `max_dist` from `val`, each with its
    /// distance, in depth-first order.
    pub fn find(&self, val: &String, max_dist: usize) -> (res: Vec<(String, usize)>)
        requires
            self.wf(),
            word_len_ok(val@),
        ensures
            forall|i: int|
                0 <= i < res@.len() ==> (#[trigger] res@[i]).1 == lev(res@[i].0@, val@)
                    && res@[i].1 <= max_dist,
    {
        let mut matches: Vec<(String, usize)> = Vec::new();
        match &self.root {
            Some(root) => {
                find_into(root, val, max_dist, &mut matches);
            },
            None => {},
        }
        matches
    }
}

/// Inserts a word below an owned node.
fn insert_into(node: Node, val: String) -> (res: Node)
    requires
        node_wf(node),
        word_len_ok(val@),
    ensures
        node_wf(res),
    decreases node,
{
    let Node { word, mut children } = node;
    let k = levenshtein_distance(word.as_str(), val.as_str());
    if k == 0 {
        return Node { word, children };
    }
    let ghost cs = children@;
    let n = children.len();
    let mut pos: usize = 0;
    while pos < n && children[pos].0 != k
        invariant
            pos <= n,
            n == children@.len(),
            children@ == cs,
        decreases n - pos,
    {
        pos = pos + 1;
    }
    if pos < n {
        let (dist, child) = children.remove(pos);
        proof {
            assert(node_wf(cs[pos as int].1));
            assert(child == cs[pos as int].1);
        }
        let new_child = insert_into(child, val);
        children.insert(pos, (dist, new_child));
        proof {
            assert forall|i: int| 0 <= i < children@.len() implies node_wf(
                #[trigger] children@[i].1,
            ) by {
                if i < pos {
                    assert(children@[i] == cs[i]);
                } else if i == pos {
                } else {
                    assert(children@[i] == cs[i]);
                }
            }
        }
        Node { word, children }
    } else {
        let fresh_children: Vec<(usize, Node)> = Vec::new();
        let fresh = Node { word: val, children: fresh_children };
        proof {
            assert(node_wf(fresh));
        }
        let ghost cs2 = children@;
        children.push((k, fresh));
        proof {
            assert forall|i: int| 0 <= i < children@.len() implies node_wf(
                #[trigger] children@[i].1,
            ) by {
                if i < cs2.len() {
                    assert(children@[i] == cs2[i]);
                }
            }
        }
        Node { word, children }
    }
}

/// Collects matches below a node, depth first.
fn find_into(node: &Node, val: &String, max_dist: usize, matches: &mut Vec<(String, usize)>)
    requires
        node_wf(*node),
        word_len_ok(val@),
        forall|i: int|
            0 <= i < old(matches)@.len() ==> (#[trigger] old(matches)@[i]).1 == lev(
                old(matches)@[i].0@,
                val@,
            ) && old(matches)@[i].1 <= max_dist,
    ensures
        forall|i: int|
            0 <= i < final(matches)@.len() ==> (#[trigger] final(matches)@[i]).1 == lev(
                final(matches)@[i].0@,
                val@,
            ) && final(matches)@[i].1 <= max_dist,
    decreases *node,
{
    let distance = levenshtein_distance(node.word.as_str(), val.as_str());
    if distance <= max_dist {
        matches.push((node.word.clone(), distance));
    }
    let n = node.children.len();
    let mut i: usize = 0;
    while i < n
        invariant
            i <= n,
            n == node.children@.len(),
            node_wf(*node),
            word_len_ok(val@),
            forall|j: int|
                0 <= j < matches@.len() ==> (#[trigger] matches@[j]).1 == lev(
                    matches@[j].0@,
                    val@,
                ) && matches@[j].1 <= max_dist,
        decreases n - i,
    {
        let arc = node.children[i].0;
        let sub = if arc >= distance {
            arc - distance
        } else {
            0
        };
        if sub <= max_dist {
            find_into(&node.children[i].1, val, max_dist, matches);
        }
        i = i + 1;
    }
}

} // verus!
