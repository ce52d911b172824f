//! A leftist heap: a mergeable min-heap whose every node's left child has
//! at least the rank of its right child.

use vstd::prelude::*;
use vstd::multiset::Multiset;

verus! {

/// A possibly empty heap.
pub enum Heap {
    Empty,
    Item(Box<Node>),
}

/// One heap node: its rank, its item and its two children.
pub struct Node {
    pub rank: usize,
    pub item: i64,
    pub left: Heap,
    pub right: Heap,
}

impl Node {
    /// A rank-one node holding one item.
    pub fn new(item: i64) -> (n: Node)
        ensures
            n.rank == 1,
            n.item == item,
            n.left == Heap::Empty,
            n.right == Heap::Empty,
    {
        Node { rank: 1, item, left: Heap::Empty, right: Heap::Empty }
    }
}

impl Heap {
    /// The items held, with multiplicity.
    pub open spec fn ms(self) -> Multiset<i64>
        decreases self,
    {
        match self {
            Heap::Empty => Multiset::empty(),
            Heap::Item(n) => n.left.ms().add(n.right.ms()).insert(n.item),
        }
    }

    /// Node count, the induction measure.
    pub open spec fn size(self) -> nat
        decreases self,
    {
        match self {
            Heap::Empty => 0,
            Heap::Item(n) => 1 + n.left.size() + n.right.size(),
        }
    }

    /// Heap order: every node's item is at most anything below it.
    pub open spec fn wf(self) -> bool
        decreases self,
    {
        match self {
            Heap::Empty => true,
            Heap::Item(n) => {
                &&& n.left.wf()
                &&& n.right.wf()
                &&& forall|x: i64| n.left.ms().count(x) > 0 ==> n.item <= x
                &&& forall|x: i64| n.right.ms().count(x) > 0 ==> n.item <= x
            },
        }
    }

    /// The rank: the length of the rightmost path.
    pub fn rank(&self) -> (r: usize)
        ensures
            r == match *self {
                Heap::Empty => 0usize,
                Heap::Item(n) => n.rank,
            },
    {
        match self {
            Heap::Empty => 0,
            Heap::Item(item) => item.rank,
        }
    }

    /// Builds a node over two heaps, putting the larger rank on the left.
    fn make(item: i64, left: Heap, right: Heap) -> (h: Heap)
        requires
            left.wf(),
            right.wf(),
            forall|x: i64| left.ms().count(x) > 0 ==> item <= x,
            forall|x: i64| right.ms().count(x) > 0 ==> item <= x,
        ensures
            h.wf(),
            h.ms() == left.ms().add(right.ms()).insert(item),
    {
        broadcast use vstd::multiset::group_multiset_axioms;

        let lr = left.rank();
        let rr = right.rank();
        if lr >= rr {
            let r = if rr < usize::MAX {
                rr + 1
            } else {
                rr
            };
            Heap::Item(Box::new(Node { rank: r, item, left, right }))
        } else {
            let r = if lr < usize::MAX {
                lr + 1
            } else {
                lr
            };
            let ghost lm = left.ms();
            let ghost rm = right.ms();
            let h = Heap::Item(Box::new(Node { rank: r, item, left: right, right: left }));
            proof {
                assert(h.ms() =~= lm.add(rm).insert(item));
            }
            h
        }
    }

    /// Merges two heaps into one holding both their contents.
    pub fn merge(a: Heap, b: Heap) -> (h: Heap)
        requires
            a.wf(),
            b.wf(),
        ensures
            h.wf(),
            h.ms() == a.ms().add(b.ms()),
        decreases a.size() + b.size(),
    {
        broadcast use vstd::multiset::group_multiset_axioms;

        match (a, b) {
            (Heap::Empty, h) => {
                proof {
                    assert(Multiset::<i64>::empty().add(h.ms()) =~= h.ms());
                }
                h
            },
            (h, Heap::Empty) => {
                proof {
                    assert(h.ms().add(Multiset::<i64>::empty()) =~= h.ms());
                }
                h
            },
            (Heap::Item(h1), Heap::Item(h2)) => {
                let ghost am = Heap::Item(h1).ms();
                let ghost bm = Heap::Item(h2).ms();
                if h1.item <= h2.item {
                    let Node { rank: _, item, left, right } = *h1;
                    let sub = Heap::merge(right, Heap::Item(h2));
                    proof {
                        assert forall|x: i64| sub.ms().count(x) > 0 implies item <= x by {
                            if right.ms().count(x) > 0 {
                            } else {
                                assert(bm.count(x) > 0);
                                if x != h2.item {
                                    assert(h2.left.ms().add(h2.right.ms()).count(x) > 0);
                                    assert(h2.left.ms().count(x) > 0 || h2.right.ms().count(x)
                                        > 0);
                                }
                            }
                        }
                    }
                    let res = Heap::make(item, left, sub);
                    proof {
                        assert(left.ms().add(sub.ms()).insert(item) =~= am.add(bm));
                    }
                    res
                } else {
                    let Node { rank: _, item, left, right } = *h2;
                    let sub = Heap::merge(Heap::Item(h1), right);
                    proof {
                        assert forall|x: i64| sub.ms().count(x) > 0 implies item <= x by {
                            if right.ms().count(x) > 0 {
                            } else {
                                assert(am.count(x) > 0);
                                if x != h1.item {
                                    assert(h1.left.ms().add(h1.right.ms()).count(x) > 0);
                                    assert(h1.left.ms().count(x) > 0 || h1.right.ms().count(x)
                                        > 0);
                                }
                            }
                        }
                    }
                    let res = Heap::make(item, left, sub);
                    proof {
                        assert(left.ms().add(sub.ms()).insert(item) =~= am.add(bm));
                    }
                    res
                }
            },
        }
    }

    /// Adds one item.
    pub fn insert(self, item: i64) -> (h: Heap)
        requires
            self.wf(),
        ensures
            h.wf(),
            h.ms() == self.ms().insert(item),
    {
        broadcast use vstd::multiset::group_multiset_axioms;

        let new_node = Heap::Item(
            Box::new(Node { rank: 1, item, left: Heap::Empty, right: Heap::Empty }),
        );
        proof {
            assert(Heap::Empty.ms() == Multiset::<i64>::empty());
            assert(new_node.ms() == Heap::Empty.ms().add(Heap::Empty.ms()).insert(item));
            assert(new_node.ms() =~= Multiset::empty().insert(item));
            assert(new_node.wf()) by {
                assert(Heap::Empty.wf());
                assert forall|x: i64| Heap::Empty.ms().count(x) > 0 implies item <= x by {}
            }
        }
        let res = Heap::merge(new_node, self);
        proof {
            assert(Multiset::empty().insert(item).add(self.ms()) =~= self.ms().insert(item));
        }
        res
    }

    /// The least item, or nothing for an empty heap.
    pub fn find_min(&self) -> (r: Option<i64>)
        requires
            self.wf(),
        ensures
            match r {
                None => *self is Empty,
                Some(m) => self.ms().count(m) > 0 && forall|x: i64|
                    self.ms().count(x) > 0 ==> m <= x,
            },
    {
        broadcast use vstd::multiset::group_multiset_axioms;

        match self {
            Heap::Empty => None,
            Heap::Item(node) => {
                proof {
                    assert forall|x: i64| self.ms().count(x) > 0 implies node.item <= x by {
                        if x != node.item {
                            assert(node.left.ms().add(node.right.ms()).count(x) > 0);
                            assert(node.left.ms().count(x) > 0 || node.right.ms().count(x) > 0);
                        }
                    }
                    assert(self.ms().count(node.item) > 0);
                }
                Some(node.item)
            },
        }
    }

    /// Removes the least item; an empty heap stays empty.
    pub fn delete_min(self) -> (h: Heap)
        requires
            self.wf(),
        ensures
            h.wf(),
            match self {
                Heap::Empty => h is Empty,
                Heap::Item(n) => h.ms() == self.ms().remove(n.item),
            },
    {
        broadcast use vstd::multiset::group_multiset_axioms;

        match self {
            Heap::Empty => self,
            Heap::Item(node) => {
                let ghost sm = Heap::Item(node).ms();
                let Node { rank: _, item, left, right } = *node;
                let res = Heap::merge(left, right);
                proof {
                    assert(left.ms().add(right.ms()) =~= sm.remove(item));
                }
                res
            },
        }
    }
}

} // verus!
