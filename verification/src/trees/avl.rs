//! An AVL tree: a binary search tree rebalanced by rotations on insert.

use vstd::prelude::*;
use vstd::set::Set;

verus! {

broadcast use vstd::set::group_set_axioms;

/// One tree node with its cached height.
pub struct Node {
    pub value: i64,
    pub height: i32,
    pub left: Option<Box<Node>>,
    pub right: Option<Box<Node>>,
}

/// The keys of a subtree.
pub open spec fn keys(n: Option<Box<Node>>) -> Set<i64>
    decreases n,
{
    match n {
        None => Set::empty(),
        Some(b) => keys(b.left).union(keys(b.right)).insert(b.value),
    }
}

/// The keys at and below one node.
pub open spec fn node_keys(n: Node) -> Set<i64> {
    keys(n.left).union(keys(n.right)).insert(n.value)
}

/// Search order at and below one node.
pub open spec fn node_ordered(n: Node) -> bool {
    &&& ordered(n.left)
    &&& ordered(n.right)
    &&& forall|k: i64| keys(n.left).contains(k) ==> k <= n.value
    &&& forall|k: i64| keys(n.right).contains(k) ==> k >= n.value
}

/// The two spec views agree.
pub proof fn lemma_node_view(n: Option<Box<Node>>)
    ensures
        n matches Some(b) ==> keys(n) == node_keys(*b) && (ordered(n) <==> node_ordered(*b)),
{
}

/// Search order: keys at most the node's value on the left, at least it
/// on the right; duplicates keep this shape through rotations.
pub open spec fn ordered(n: Option<Box<Node>>) -> bool
    decreases n,
{
    match n {
        None => true,
        Some(b) => {
            &&& ordered(b.left)
            &&& ordered(b.right)
            &&& forall|k: i64| keys(b.left).contains(k) ==> k <= b.value
            &&& forall|k: i64| keys(b.right).contains(k) ==> k >= b.value
        },
    }
}

impl Node {
    /// A leaf node.
    pub fn new(value: i64) -> (n: Node)
        ensures
            node_ordered(n),
            node_keys(n) == Set::empty().insert(value),
    {
        let n = Node { value, height: 1, left: None, right: None };
        proof {
            assert(keys(None) =~= Set::<i64>::empty());
            assert(ordered(None));
            assert(node_keys(n) =~= Set::empty().insert(value));
            assert(node_ordered(n));
        }
        n
    }

    /// The cached height of a possibly empty subtree.
    pub fn height(node: &Option<Box<Node>>) -> (h: i32)
        ensures
            h == match *node {
                None => 0i32,
                Some(b) => b.height,
            },
    {
        match node {
            None => 0,
            Some(n) => n.height,
        }
    }

    /// Refreshes this node's cached height from its children.
    pub fn update_height(&mut self)
        ensures
            final(self).value == old(self).value,
            final(self).left == old(self).left,
            final(self).right == old(self).right,
    {
        let lh = Self::height(&self.left);
        let rh = Self::height(&self.right);
        let m = if lh >= rh {
            lh
        } else {
            rh
        };
        self.height = if m < i32::MAX {
            m + 1
        } else {
            m
        };
    }

    /// How much taller the left side stands than the right.
    pub fn balance_factor(&self) -> (b: i32) {
        let lh = Self::height(&self.left);
        let rh = Self::height(&self.right);
        if lh >= 0 && rh >= 0 {
            // cached heights of well-built trees are non-negative
            if lh >= rh {
                lh - rh
            } else {
                -(rh - lh)
            }
        } else {
            0
        }
    }

    /// Rotates this node down to the right of its left child.
    pub fn rotate_right(self) -> (r: Box<Node>)
        requires
            self.left is Some,
            node_ordered(self),
        ensures
            node_ordered(*r),
            node_keys(*r) == node_keys(self),
    {
        let ghost whole = self;
        let Node { value, height, left, right } = self;
        let ghost gright = right;
        let mut new_root = match left {
            Some(b) => b,
            None => vstd::pervasive::unreached(),
        };
        let ghost gl = new_root;
        let moved = new_root.right.take();
        let mut lower = Node { value, height, left: moved, right };
        lower.update_height();
        let ghost glower = lower;
        new_root.right = Some(Box::new(lower));
        new_root.update_height();
        proof {
            assert(node_keys(glower) =~= keys(gl.right).union(keys(gright)).insert(value));
            assert forall|k: i64| keys(gl.right).contains(k) implies k <= value by {
                assert(keys(whole.left).contains(k));
            }
            assert(node_ordered(glower));
            assert(keys(new_root.right) == node_keys(glower));
            assert(node_keys(*new_root) =~= node_keys(whole));
            assert forall|k: i64| keys(new_root.right).contains(k) implies k >= gl.value by {
                if keys(gl.right).contains(k) {
                } else if k == value {
                    assert(keys(whole.left).contains(gl.value));
                } else {
                    assert(keys(gright).contains(k));
                    assert(keys(whole.left).contains(gl.value));
                }
            }
            assert(node_ordered(*new_root));
        }
        new_root
    }

    /// Rotates this node down to the left of its right child.
    pub fn rotate_left(self) -> (r: Box<Node>)
        requires
            self.right is Some,
            node_ordered(self),
        ensures
            node_ordered(*r),
            node_keys(*r) == node_keys(self),
    {
        let ghost whole = self;
        let Node { value, height, left, right } = self;
        let ghost gleft = left;
        let mut new_root = match right {
            Some(b) => b,
            None => vstd::pervasive::unreached(),
        };
        let ghost gr = new_root;
        let moved = new_root.left.take();
        let mut lower = Node { value, height, left, right: moved };
        lower.update_height();
        let ghost glower = lower;
        new_root.left = Some(Box::new(lower));
        new_root.update_height();
        proof {
            assert(node_keys(glower) =~= keys(gleft).union(keys(gr.left)).insert(value));
            assert forall|k: i64| keys(gr.left).contains(k) implies k >= value by {
                assert(keys(whole.right).contains(k));
            }
            assert(node_ordered(glower));
            assert(keys(new_root.left) == node_keys(glower));
            assert(node_keys(*new_root) =~= node_keys(whole));
            assert forall|k: i64| keys(new_root.left).contains(k) implies k <= gr.value by {
                if keys(gr.left).contains(k) {
                } else if k == value {
                    assert(keys(whole.right).contains(gr.value));
                } else {
                    assert(keys(gleft).contains(k));
                    assert(keys(whole.right).contains(gr.value));
                }
            }
            assert(node_ordered(*new_root));
        }
        new_root
    }

    /// Restores the balance at this node after an insertion below it.
    /// The structural guards mirror what accurate heights already imply.
    pub fn balance(self) -> (r: Box<Node>)
        requires
            node_ordered(self),
        ensures
            node_ordered(*r),
            node_keys(*r) == node_keys(self),
    {
        let ghost whole = self;
        let mut this = self;
        this.update_height();
        proof {
            assert(node_ordered(this));
            assert(node_keys(this) =~= node_keys(whole));
        }
        let b = this.balance_factor();
        if b > 1 {
            let do_inner = match &this.left {
                Some(l) => l.balance_factor() < 0 && l.right.is_some(),
                None => false,
            };
            if do_inner {
                let taken = this.left.take();
                let l = match taken {
                    Some(l) => l,
                    None => vstd::pervasive::unreached(),
                };
                let rotated = (*l).rotate_left();
                this.left = Some(rotated);
                proof {
                    assert(node_ordered(this));
                    assert(node_keys(this) =~= node_keys(whole));
                }
            }
            if this.left.is_some() {
                let r = this.rotate_right();
                proof {
                    assert(node_keys(*r) =~= node_keys(whole));
                }
                r
            } else {
                Box::new(this)
            }
        } else if b < -1 {
            let do_inner = match &this.right {
                Some(r) => r.balance_factor() > 0 && r.left.is_some(),
                None => false,
            };
            if do_inner {
                let taken = this.right.take();
                let r = match taken {
                    Some(r) => r,
                    None => vstd::pervasive::unreached(),
                };
                let rotated = (*r).rotate_right();
                this.right = Some(rotated);
                proof {
                    assert(node_ordered(this));
                    assert(node_keys(this) =~= node_keys(whole));
                }
            }
            if this.right.is_some() {
                let r = this.rotate_left();
                proof {
                    assert(node_keys(*r) =~= node_keys(whole));
                }
                r
            } else {
                Box::new(this)
            }
        } else {
            Box::new(this)
        }
    }

    /// Inserts a value below this node, keeping the search order and
    /// adding the value to the keys.
    pub fn insert(self, value: i64) -> (r: Box<Node>)
        requires
            node_ordered(self),
        ensures
            node_ordered(*r),
            node_keys(*r) == node_keys(self).insert(value),
        decreases self,
    {
        let ghost whole = self;
        let Node { value: v, height, left, right } = self;
        if value < v {
            let new_left = match left {
                Some(l) => (*l).insert(value),
                None => Box::new(Node::new(value)),
            };
            let node = Node { value: v, height, left: Some(new_left), right };
            proof {
                assert(node_keys(node) =~= node_keys(whole).insert(value));
                assert(node_ordered(node));
            }
            node.balance()
        } else {
            let new_right = match right {
                Some(r) => (*r).insert(value),
                None => Box::new(Node::new(value)),
            };
            let node = Node { value: v, height, left, right: Some(new_right) };
            proof {
                assert(node_keys(node) =~= node_keys(whole).insert(value));
                assert(node_ordered(node));
            }
            node.balance()
        }
    }

    /// Whether the value sits below this node.
    pub fn contains(&self, value: i64) -> (res: bool)
        requires
            node_ordered(*self),
        ensures
            res == node_keys(*self).contains(value),
        decreases *self,
    {
        if value == self.value {
            true
        } else if value < self.value {
            match &self.left {
                Some(l) => l.contains(value),
                None => false,
            }
        } else {
            match &self.right {
                Some(r) => r.contains(value),
                None => false,
            }
        }
    }
}

/// The tree: a possibly empty root.
pub struct AVLTree {
    pub root: Option<Box<Node>>,
}

impl AVLTree {
    /// The keys held.
    pub open spec fn view_keys(&self) -> Set<i64> {
        keys(self.root)
    }

    /// Search order holds everywhere.
    pub open spec fn wf(&self) -> bool {
        ordered(self.root)
    }

    /// An empty tree.
    pub fn new() -> (t: AVLTree)
        ensures
            t.wf(),
            t.view_keys() == Set::<i64>::empty(),
    {
        AVLTree { root: None }
    }

    /// Adds a value.
    pub fn insert(&mut self, value: i64)
        requires
            old(self).wf(),
        ensures
            final(self).wf(),
            final(self).view_keys() == old(self).view_keys().insert(value),
    {
        let ghost old_root = self.root;
        let taken = self.root.take();
        match taken {
            Some(root) => {
                proof {
                    lemma_node_view(old_root);
                }
                self.root = Some((*root).insert(value));
                proof {
                    lemma_node_view(self.root);
                    assert(keys(self.root) =~= keys(old_root).insert(value));
                }
            },
            None => {
                self.root = Some(Box::new(Node::new(value)));
                proof {
                    lemma_node_view(self.root);
                    assert(keys(self.root) =~= Set::empty().insert(value));
                }
            },
        }
    }

    /// Whether a value is held.
    pub fn contains(&self, value: i64) -> (res: bool)
        requires
            self.wf(),
        ensures
            res == self.view_keys().contains(value),
    {
        proof {
            lemma_node_view(self.root);
        }
        match &self.root {
            Some(root) => root.contains(value),
            None => false,
        }
    }
}

} // verus!
