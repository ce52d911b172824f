//! Checks of the tree, string and sorting structures.

use algorithms::distances::levenshtein::levenshtein_distance;
use algorithms::sorts::merge_sort::merge_sort;
use algorithms::sorts::quickselect::quickselect;
use algorithms::strings::copy_on_write::CopyOnWrite;
use algorithms::strings::rabin_karp::rabin_karp;
use algorithms::trees::avl::AVLTree;
use algorithms::trees::bk_tree::BkTree;
use algorithms::trees::in_order::{in_order, TreeNode};
use algorithms::trees::leftist_heap::Heap;
use algorithms::trees::rope::Rope;
use algorithms::trees::segment::SegmentTree;

#[test]
fn memory_usage_merge_sort() {
    let mut vec_to_sort: Vec<i64> = (0..=10000).rev().collect();
    merge_sort(&mut vec_to_sort);
}

#[test]
fn memory_usage_sort() {
    let mut vec_to_sort: Vec<i64> = (0..=10000).rev().collect();
    vec_to_sort.sort_unstable();
}

#[test]
fn merge_sort_sorts_and_keeps_elements() {
    let mut v: Vec<i64> = vec![5, -1, 3, 3, 0, 99, -7];
    let mut expected = v.clone();
    merge_sort(&mut v);
    expected.sort();
    assert_eq!(v, expected);
}

#[test]
fn quickselect_finds_each_order_statistic() {
    let xs: Vec<i32> = vec![9, -3, 5, 5, 0, 42, 17, -3, 8];
    let mut sorted = xs.clone();
    sorted.sort();
    for k in 0..xs.len() {
        let mut work = xs.clone();
        assert_eq!(quickselect(&mut work, k), sorted[k]);
    }
}

#[test]
fn check_clones() {
    let cow: CopyOnWrite = CopyOnWrite::Owned("Hi".to_string());
    let cow1 = cow.clone();

    let mut mutable_cow = cow1.into_owned();
    mutable_cow.push_str(" world");
    assert_eq!(cow.clone().into_owned(), "Hi".to_string());
    assert_ne!(mutable_cow, cow.into_owned());
}

#[test]
fn to_mut_clones_borrowed_data() {
    let original = "abc".to_string();
    let mut cow: CopyOnWrite = CopyOnWrite::Borrowed(&original);
    cow.to_mut().push_str("def");
    assert_eq!(cow.into_owned(), "abcdef");
    assert_eq!(original, "abc");
}

#[test]
fn match_case() {
    let text = "hello world";
    let pattern = "wor";
    let matches = rabin_karp(text, pattern);
    assert!(matches);
}

#[test]
fn fail_case() {
    let text = "hello world";
    let pattern = "help";
    let matches = rabin_karp(text, pattern);
    assert!(!matches);
}

#[test]
fn rabin_karp_edges() {
    assert!(!rabin_karp("", "a"));
    assert!(!rabin_karp("a", ""));
    assert!(!rabin_karp("ab", "abc"));
    assert!(rabin_karp("abc", "abc"));
    assert!(rabin_karp("xxabyy", "ab"));
}

#[test]
fn levenshtein_values() {
    assert_eq!(levenshtein_distance("kitten", "sitting"), 3);
    assert_eq!(levenshtein_distance("", "abc"), 3);
    assert_eq!(levenshtein_distance("abc", "abc"), 0);
    assert_eq!(levenshtein_distance("book", "bo"), 2);
}

#[test]
fn levenshtein_distance_test() {
    let mut bk = BkTree::new();
    let words = vec!["book", "books", "boo", "boon", "cook", "cake", "cape", "cart"];
    for word in words {
        bk.insert(word.to_string());
    }
    let (words, dists): (Vec<String>, Vec<usize>) = bk.find(&"bo".to_string(), 2).into_iter()
        .unzip();
    assert_eq!(words, ["book", "boo", "boon"]);
    assert_eq!(dists, [2, 1, 2]);
}

#[test]
fn ex() {
    let tree: Option<Box<TreeNode>> = Some(Box::new(TreeNode {
        val: 1,
        left: None,
        right: Some(Box::new(TreeNode {
            val: 2,
            left: None,
            right: Some(Box::new(TreeNode { val: 3, left: None, right: None })),
        })),
    }));

    assert_eq!(in_order(&tree), vec![1, 2, 3]);
}

#[test]
fn children_swap() {
    let mut heap = Heap::Empty;

    //    5
    //   /
    // 10
    heap = heap.insert(5).insert(10);
    if let Heap::Item(ref node) = heap {
        assert_eq!(node.left.find_min(), Some(10));
        assert_eq!(node.right.find_min(), None);
    };

    //       5
    //      / \
    //    15   10
    //   /  \
    //  20  25
    heap = heap.insert(15).insert(20).insert(25);
    if let Heap::Item(ref node) = heap {
        assert_eq!(node.left.find_min(), Some(15));
        assert_eq!(node.right.find_min(), Some(10));
    }
}

#[test]
fn heap_orders_deletions() {
    let mut heap = Heap::Empty;
    for x in [7i64, 3, 9, 1, 4] {
        heap = heap.insert(x);
    }
    let mut popped = Vec::new();
    while let Some(m) = heap.find_min() {
        popped.push(m);
        heap = heap.delete_min();
    }
    assert_eq!(popped, vec![1, 3, 4, 7, 9]);
}

#[test]
fn test_rope_new() {
    let rope = Rope::new("Hello, World!");
    assert!(rope.is_leaf());
}

#[test]
fn test_rope_index() {
    let rope = Rope::new("Hello, World!");
    assert_eq!(rope.index(1).unwrap(), 'e');
    assert_eq!(rope.index(0).unwrap(), 'H');
    assert_eq!(rope.index(3).unwrap(), 'l');
    assert_eq!(rope.index(12).unwrap(), '!');
}

#[test]
fn test_rope_join() {
    let rope1 = Rope::new("Hello,");
    let rope2 = Rope::new(" World!");

    let rope = Rope::join(Box::new(rope1), Box::new(rope2));

    assert_eq!(rope.index(1).unwrap(), 'e');
    assert_eq!(rope.index(0).unwrap(), 'H');
    assert_eq!(rope.index(3).unwrap(), 'l');
    assert_eq!(rope.index(12).unwrap(), '!');
}

#[test]
fn test_rope_split() {
    let rope = Rope::new("Hello, World!");
    let (left, right) = rope.split(5);
    assert_eq!(left.buf(), Some("Hello"));
    assert_eq!(right.buf(), Some(", World!"));
}

#[test]
fn test_rope_report() {
    let rope = Rope::new("Hello, World!");

    assert_eq!(rope.report(1, 5).unwrap(), "ello,");

    let (left, right) = rope.split(5);
    assert_eq!(left.report(0, 4).unwrap(), "Hello");
    assert_eq!(right.report(0, 7).unwrap(), ", World!");
    assert_eq!(right.report(0, 8), None);
}

#[test]
fn test_rope_insert() {
    let rope = Rope::new("Hello, World!");

    let rope = rope.insert(" Cruel", 6);

    assert_eq!(rope.report(0, 18).unwrap(), "Hello, Cruel World!");
}

#[test]
fn test_rope_delete() {
    let rope = Rope::new("Hello, World!");
    let rope = rope.delete(2, 4);
    assert_eq!(rope.report(0, 9).unwrap(), "He, World!");
}

#[test]
fn segment_ex1() {
    let tree = SegmentTree::new(&[4, 3, 2, 8, 5, 1, 2, 1]);

    assert_eq!(tree.query(1, 7), 1);
}

#[test]
fn segment_matches_direct_minimum() {
    let arr = [12u32, 7, 7, 30, 2, 9];
    let mut tree = SegmentTree::new(&arr);
    for l in 1..=arr.len() {
        for r in l..=arr.len() {
            let direct = *arr[l - 1..r].iter().min().unwrap();
            assert_eq!(tree.query(l, r), direct);
        }
    }
    tree.update(5, 40);
    assert_eq!(tree.query(4, 6), 9);
    assert_eq!(tree.query(1, 4), 7);
}

#[test]
fn avl_inserts_and_finds() {
    let mut tree = AVLTree::new();
    for x in [8i64, 3, 10, 1, 6, 14, 4, 7, 13, 3] {
        tree.insert(x);
    }
    for x in [8i64, 3, 10, 1, 6, 14, 4, 7, 13] {
        assert!(tree.contains(x));
    }
    for x in [0i64, 2, 5, 9, 11, 12, 15] {
        assert!(!tree.contains(x));
    }
}
