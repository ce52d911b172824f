//! In-order traversal of a binary tree.

use vstd::prelude::*;

verus! {

/// A binary tree node holding an integer.
pub struct TreeNode {
    pub val: i32,
    pub left: BSTNode,
    pub right: BSTNode,
}

/// A possibly empty subtree.
pub type BSTNode = Option<Box<TreeNode>>;

/// The in-order listing of a tree: left subtree, node, right subtree.
pub open spec fn in_order_spec(root: BSTNode) -> Seq<i32>
    decreases root,
{
    match root {
        Some(node) => in_order_spec(node.left) + seq![node.val] + in_order_spec(node.right),
        None => seq![],
    }
}

/// Collects the tree's values in order: left subtree, node, right subtree.
pub fn in_order(root: &BSTNode) -> (res: Vec<i32>)
    ensures
        res@ == in_order_spec(*root),
    decreases *root,
{
    match root {
        Some(node) => {
            let mut left = in_order(&node.left);
            left.push(node.val);
            let right = in_order(&node.right);
            let mut k: usize = 0;
            let rn = right.len();
            proof {
                assert(left@ =~= in_order_spec(node.left) + seq![node.val] + right@.subrange(
                    0,
                    0,
                ));
            }
            while k < rn
                invariant
                    k <= rn,
                    rn == right@.len(),
                    left@ == in_order_spec(node.left) + seq![node.val] + right@.subrange(
                        0,
                        k as int,
                    ),
                decreases rn - k,
            {
                left.push(right[k]);
                k = k + 1;
                proof {
                    assert(in_order_spec(node.left) + seq![node.val] + right@.subrange(
                        0,
                        k - 1,
                    ) + seq![right@[k - 1]] =~= in_order_spec(node.left) + seq![node.val]
                        + right@.subrange(0, k as int));
                }
            }
            proof {
                assert(right@.subrange(0, rn as int) =~= right@);
            }
            left
        },
        None => {
            let res: Vec<i32> = Vec::new();
            proof {
                assert(res@ =~= in_order_spec(*root));
            }
            res
        },
    }
}

} // verus!
