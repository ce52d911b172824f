//! A rope: text held in a binary tree whose leaves carry string pieces,
//! supporting indexing, splitting, joining, insertion and deletion.

use vstd::prelude::*;

verus! {

/// An inner node: the length of the left subtree and the two children.
pub struct Node {
    pub weight: usize,
    pub left: Option<Box<Rope>>,
    pub right: Option<Box<Rope>>,
}

/// A leaf: one owned piece of text, with its covered range.
pub struct Leaf {
    pub buf: String,
    pub start: usize,
    pub end: usize,
}

/// A rope is a leaf or an inner node.
pub enum Rope {
    Node(Node),
    Leaf(Leaf),
}

impl Leaf {
    /// The piece covers its whole non-empty buffer.
    pub open spec fn wf(&self) -> bool {
        &&& self.start == 0
        &&& self.end + 1 == self.buf@.len()
        &&& self.buf@.len() >= 1
        &&& self.buf@.len() <= usize::MAX
    }

    /// A leaf over a non-empty string.
    pub fn new(s: &str) -> (l: Leaf)
        requires
            s@.len() >= 1,
        ensures
            l.wf(),
            l.buf@ == s@,
    {
        let n = s.unicode_len();
        Leaf { buf: s.to_owned(), start: 0, end: n - 1 }
    }

    /// Characters covered.
    pub fn weight(&self) -> (w: usize)
        requires
            self.wf(),
        ensures
            w == self.buf@.len(),
    {
        self.end - self.start + 1
    }

    /// Splits the piece strictly inside its text.
    pub fn split(&self, offset: usize) -> (r: (Leaf, Leaf))
        requires
            self.wf(),
            0 < offset,
            offset + 1 <= self.buf@.len(),
        ensures
            r.0.wf(),
            r.1.wf(),
            r.0.buf@ == self.buf@.subrange(0, offset as int),
            r.1.buf@ == self.buf@.subrange(offset as int, self.buf@.len() as int),
    {
        let n = self.buf.as_str().unicode_len();
        let left = self.buf.as_str().substring_char(0, offset);
        let right = self.buf.as_str().substring_char(offset, n);
        (Leaf::new(left), Leaf::new(right))
    }

    /// The covered characters `start..=end`, when inside this piece.
    pub fn report(&self, start: usize, end: usize) -> (res: Option<String>)
        requires
            self.wf(),
            start <= end,
        ensures
            match (res, leaf_report_spec(*self, start as int, end as int)) {
                (Some(s), Some(t)) => s@ == t,
                (None, None) => true,
                _ => false,
            },
    {
        if start >= self.start && end <= self.end {
            Some(self.buf.as_str().substring_char(start, end + 1).to_owned())
        } else {
            None
        }
    }
}

/// What a leaf's report yields.
pub open spec fn leaf_report_spec(l: Leaf, start: int, end: int) -> Option<Seq<char>> {
    if start >= l.start && end <= l.end {
        Some(l.buf@.subrange(start, end + 1))
    } else {
        None
    }
}

impl Rope {
    /// Shape invariant: leaves are well formed, nodes have both children
    /// and carry the left subtree's length.
    pub open spec fn wf(&self) -> bool
        decreases self,
    {
        match self {
            Rope::Leaf(l) => l.wf(),
            Rope::Node(n) => {
                &&& n.left is Some
                &&& n.right is Some
                &&& n.left->0.wf()
                &&& n.right->0.wf()
                &&& n.weight == n.left->0.content().len()
            },
        }
    }

    /// The text the rope holds.
    pub open spec fn content(&self) -> Seq<char>
        decreases self,
    {
        match self {
            Rope::Leaf(l) => l.buf@,
            Rope::Node(n) => {
                (match n.left {
                    Some(left) => left.content(),
                    None => Seq::empty(),
                }) + (match n.right {
                    Some(right) => right.content(),
                    None => Seq::empty(),
                })
            },
        }
    }

    /// A well-formed rope holds at least one character.
    pub proof fn lemma_content_nonempty(&self)
        requires
            self.wf(),
        ensures
            self.content().len() >= 1,
        decreases self,
    {
        match self {
            Rope::Leaf(l) => {},
            Rope::Node(n) => {
                n.left->0.lemma_content_nonempty();
                n.right->0.lemma_content_nonempty();
            },
        }
    }

    /// A split point lies strictly inside the text.
    pub proof fn lemma_can_split_bound(&self, k: int)
        requires
            self.wf(),
            self.can_split(k),
        ensures
            0 < k < self.content().len(),
        decreases self,
    {
        match self {
            Rope::Leaf(l) => {},
            Rope::Node(n) => {
                if k < n.weight {
                    n.left->0.lemma_can_split_bound(k);
                    n.right->0.lemma_content_nonempty();
                } else {
                    n.right->0.lemma_can_split_bound(k - n.weight);
                }
            },
        }
    }

    /// A rope over a non-empty string: one leaf.
    pub fn new(s: &str) -> (r: Rope)
        requires
            s@.len() >= 1,
        ensures
            r.wf(),
            r.content() == s@,
            r is Leaf,
    {
        Rope::Leaf(Leaf::new(s))
    }

    /// The leaf's text, or nothing at an inner node.
    pub fn buf(&self) -> (res: Option<&str>)
        ensures
            match res {
                Some(s) => self is Leaf && s@ == self.content(),
                None => self is Node,
            },
    {
        match self {
            Rope::Node(_) => None,
            Rope::Leaf(leaf) => Some(leaf.buf.as_str()),
        }
    }

    /// The character at `i`. An index equal to the weight still goes
    /// left, so the boundary character of an inner node reads as absent.
    pub fn index(&self, i: usize) -> (res: Option<char>)
        requires
            self.wf(),
        ensures
            res == self.index_spec(i as int),
        decreases self,
    {
        match self {
            Rope::Node(node) => {
                if i <= node.weight {
                    match &node.left {
                        Some(left) => left.index(i),
                        None => None,
                    }
                } else {
                    match &node.right {
                        Some(right) => right.index(i - node.weight),
                        None => None,
                    }
                }
            },
            Rope::Leaf(leaf) => {
                let n = leaf.buf.as_str().unicode_len();
                if i < n {
                    Some(leaf.buf.as_str().get_char(i))
                } else {
                    None
                }
            },
        }
    }

    /// What indexing yields.
    pub open spec fn index_spec(&self, i: int) -> Option<char>
        decreases self,
    {
        match self {
            Rope::Node(n) => {
                if i <= n.weight {
                    match n.left {
                        Some(left) => left.index_spec(i),
                        None => None,
                    }
                } else {
                    match n.right {
                        Some(right) => right.index_spec(i - n.weight),
                        None => None,
                    }
                }
            },
            Rope::Leaf(l) => {
                if 0 <= i < l.buf@.len() {
                    Some(l.buf@[i])
                } else {
                    None
                }
            },
        }
    }

    /// The length of the left part, or of the whole leaf.
    pub fn weight(&self) -> (w: usize)
        requires
            self.wf(),
        ensures
            w == match *self {
                Rope::Node(n) => n.weight as int,
                Rope::Leaf(l) => l.buf@.len() as int,
            },
    {
        match self {
            Rope::Node(node) => node.weight,
            Rope::Leaf(leaf) => leaf.weight(),
        }
    }

    /// The total number of characters.
    pub fn len(&self) -> (n: usize)
        requires
            self.wf(),
            self.content().len() <= usize::MAX,
        ensures
            n == self.content().len(),
        decreases self,
    {
        match self {
            Rope::Node(node) => {
                match &node.right {
                    Some(right) => {
                        proof {
                            right.lemma_content_nonempty();
                        }
                        node.weight + right.len()
                    },
                    None => vstd::pervasive::unreached(),
                }
            },
            Rope::Leaf(leaf) => leaf.weight(),
        }
    }

    /// Whether the rope is empty; a well-formed rope never is.
    pub fn is_empty(&self) -> (b: bool)
        requires
            self.wf(),
            self.content().len() <= usize::MAX,
        ensures
            b == (self.content().len() == 0),
    {
        self.len() == 0
    }

    /// Whether this is a leaf.
    pub fn is_leaf(&self) -> (b: bool)
        ensures
            b == (self is Leaf),
    {
        match self {
            Rope::Leaf(_) => true,
            Rope::Node(_) => false,
        }
    }

    /// Whether this is an inner node.
    pub fn is_node(&self) -> (b: bool)
        ensures
            b == (self is Node),
    {
        match self {
            Rope::Node(_) => true,
            Rope::Leaf(_) => false,
        }
    }

    /// Joins two ropes; the new node weighs the left rope's length.
    pub fn join(left: Box<Rope>, right: Box<Rope>) -> (r: Rope)
        requires
            left.wf(),
            right.wf(),
            left.content().len() <= usize::MAX,
        ensures
            r.wf(),
            r.content() == left.content() + right.content(),
            r == Rope::Node(
                Node {
                    weight: left.content().len() as usize,
                    left: Some(left),
                    right: Some(right),
                },
            ),
    {
        let weight = left.len();
        Rope::Node(Node { weight, left: Some(left), right: Some(right) })
    }

    /// Where a split lands strictly inside a leaf, so splitting is
    /// possible.
    pub open spec fn can_split(&self, offset: int) -> bool
        decreases self,
    {
        match self {
            Rope::Leaf(l) => 0 < offset < l.buf@.len(),
            Rope::Node(n) => {
                if offset < n.weight {
                    match n.left {
                        Some(left) => left.can_split(offset),
                        None => false,
                    }
                } else {
                    match n.right {
                        Some(right) => right.can_split(offset - n.weight),
                        None => false,
                    }
                }
            },
        }
    }

    /// Splits the rope into its first `offset` characters and the rest.
    pub fn split(self, offset: usize) -> (r: (Rope, Rope))
        requires
            self.wf(),
            self.can_split(offset as int),
            self.content().len() <= usize::MAX,
        ensures
            r.0.wf(),
            r.1.wf(),
            r.0.content() == self.content().subrange(0, offset as int),
            r.1.content() == self.content().subrange(offset as int, self.content().len() as int),
            forall|k: int|
                offset < k < self.content().len() ==> (#[trigger] r.1.can_split(k - offset)
                    <==> self.can_split(k)),
        decreases self,
    {
        proof {
            self.lemma_can_split_bound(offset as int);
        }
        let ghost whole = self.content();
        match self {
            Rope::Leaf(leaf) => {
                let (l, r) = leaf.split(offset);
                (Rope::Leaf(l), Rope::Leaf(r))
            },
            Rope::Node(node) => {
                let w = node.weight;
                let ghost selfg = Rope::Node(node);
                let left = match node.left {
                    Some(b) => b,
                    None => vstd::pervasive::unreached(),
                };
                let right = match node.right {
                    Some(b) => b,
                    None => vstd::pervasive::unreached(),
                };
                proof {
                    left.lemma_content_nonempty();
                    right.lemma_content_nonempty();
                }
                if offset < w {
                    let ghost leftg = *left;
                    let ghost rightg = *right;
                    let (l, r) = (*left).split(offset);
                    let ghost rg = r;
                    let r2 = Rope::join(Box::new(r), right);
                    proof {
                        assert(l.content() =~= whole.subrange(0, offset as int));
                        assert(r2.content() =~= whole.subrange(
                            offset as int,
                            whole.len() as int,
                        ));
                        assert forall|k: int|
                            offset < k < whole.len() implies (#[trigger] r2.can_split(
                            k - offset,
                        ) <==> selfg.can_split(k)) by {
                            if k < w {
                                assert(rg.can_split(k - offset) <==> leftg.can_split(k));
                            } else {
                                assert(r2.can_split(k - offset) == rightg.can_split(
                                    k - offset - (w - offset),
                                ));
                            }
                        }
                    }
                    (l, r2)
                } else {
                    let ghost leftg = *left;
                    let ghost rightg = *right;
                    let (l2, r2) = (*right).split(offset - w);
                    let ghost r2g = r2;
                    let l = Rope::join(left, Box::new(l2));
                    proof {
                        assert(l.content() =~= whole.subrange(0, offset as int));
                        assert(r2.content() =~= whole.subrange(
                            offset as int,
                            whole.len() as int,
                        ));
                        assert forall|k: int|
                            offset < k < whole.len() implies (#[trigger] r2g.can_split(
                            k - offset,
                        ) <==> selfg.can_split(k)) by {
                            assert(r2g.can_split((k - w) - (offset - w)) <==> rightg.can_split(
                                k - w,
                            ));
                            assert(k - offset == (k - w) - (offset - w));
                        }
                    }
                    (l, r2)
                }
            },
        }
    }

    /// Inserts text at `offset`, splitting there and joining the pieces
    /// around the new leaf.
    pub fn insert(self, s: &str, offset: usize) -> (r: Rope)
        requires
            self.wf(),
            self.can_split(offset as int),
            s@.len() >= 1,
            self.content().len() + s@.len() <= usize::MAX,
        ensures
            r.wf(),
            r.content() == self.content().subrange(0, offset as int) + s@
                + self.content().subrange(offset as int, self.content().len() as int),
    {
        proof {
            self.lemma_can_split_bound(offset as int);
        }
        let ghost whole = self.content();
        let (l, r) = self.split(offset);
        let leaf = Rope::new(s);
        let tmp = Rope::join(Box::new(l), Box::new(leaf));
        let res = Rope::join(Box::new(tmp), Box::new(r));
        proof {
            assert(res.content() =~= whole.subrange(0, offset as int) + s@ + whole.subrange(
                offset as int,
                whole.len() as int,
            ));
        }
        res
    }

    /// Deletes the characters `start..=end`.
    pub fn delete(self, start: usize, end: usize) -> (r: Rope)
        requires
            self.wf(),
            start <= end,
            end + 1 < self.content().len(),
            self.can_split(start as int),
            self.can_split(end + 1),
            self.content().len() <= usize::MAX,
        ensures
            r.wf(),
            r.content() == self.content().subrange(0, start as int) + self.content().subrange(
                end + 1,
                self.content().len() as int,
            ),
    {
        proof {
            self.lemma_can_split_bound(start as int);
        }
        let ghost whole = self.content();
        let ghost selfg = self;
        let (l, r) = self.split(start);
        proof {
            assert(r.can_split((end + 1) - start as int) <==> selfg.can_split(end + 1));
            assert(end - start + 1 == (end + 1) - start as int);
        }
        let (_, r2) = r.split(end - start + 1);
        let res = Rope::join(Box::new(l), Box::new(r2));
        proof {
            assert(res.content() =~= whole.subrange(0, start as int) + whole.subrange(
                end + 1,
                whole.len() as int,
            ));
        }
        res
    }

    /// Whether a report of `start..=end` stays inside the pieces its
    /// recursion visits.
    pub open spec fn report_req(&self, start: int, end: int) -> bool
        decreases self,
    {
        start <= end && match self {
            Rope::Leaf(l) => true,
            Rope::Node(n) => {
                if end - start + 1 <= n.weight {
                    match n.left {
                        Some(left) => left.report_req(start, end),
                        None => true,
                    }
                } else {
                    &&& start <= n.weight - 1
                    &&& (match n.left {
                        Some(left) => left.report_req(start, n.weight - 1),
                        None => true,
                    })
                    &&& (match n.right {
                        Some(right) => right.report_req(0, end - start - n.weight),
                        None => true,
                    })
                }
            },
        }
    }

    /// What a report yields: a spanning range is served from the left
    /// piece's tail and the right piece's head, relative to the range's
    /// length.
    pub open spec fn report_spec(&self, start: int, end: int) -> Option<Seq<char>>
        decreases self,
    {
        match self {
            Rope::Leaf(l) => leaf_report_spec(*l, start, end),
            Rope::Node(n) => {
                if end - start + 1 <= n.weight {
                    match n.left {
                        Some(left) => left.report_spec(start, end),
                        None => None,
                    }
                } else {
                    let lpart = match n.left {
                        Some(left) => left.report_spec(start, n.weight - 1),
                        None => None,
                    };
                    let rpart = match n.right {
                        Some(right) => right.report_spec(0, end - start - n.weight),
                        None => None,
                    };
                    match (lpart, rpart) {
                        (Some(a), Some(b)) => Some(a + b),
                        _ => None,
                    }
                }
            },
        }
    }

    /// Reports the characters `start..=end`, as `report_spec` serves
    /// them.
    pub fn report(&self, start: usize, end: usize) -> (res: Option<String>)
        requires
            self.wf(),
            self.report_req(start as int, end as int),
            end < usize::MAX,
        ensures
            match (res, self.report_spec(start as int, end as int)) {
                (Some(s), Some(t)) => s@ == t,
                (None, None) => true,
                _ => false,
            },
        decreases self,
    {
        match self {
            Rope::Leaf(leaf) => leaf.report(start, end),
            Rope::Node(node) => {
                let len = end - start + 1;
                let w = node.weight;
                if len <= w {
                    match &node.left {
                        Some(left) => left.report(start, end),
                        None => vstd::pervasive::unreached(),
                    }
                } else {
                    let l = match &node.left {
                        Some(left) => left.report(start, w - 1),
                        None => vstd::pervasive::unreached(),
                    };
                    let l = match l {
                        Some(s) => s,
                        None => {
                            return None;
                        },
                    };
                    let r = match &node.right {
                        Some(right) => right.report(0, len - w - 1),
                        None => vstd::pervasive::unreached(),
                    };
                    match r {
                        Some(rs) => Some(l.concat(rs.as_str())),
                        None => None,
                    }
                }
            },
        }
    }
}

} // verus!
