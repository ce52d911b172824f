//! Tree data structures: balanced search trees, a metric tree, a mergeable
//! heap, a rope over text, and a segment tree for range minima.

pub mod avl;
pub mod bk_tree;
pub mod in_order;
pub mod leftist_heap;
pub mod rope;
pub mod segment;
