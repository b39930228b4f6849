use project2::common::{DisplayColor, TreeNode, TreeOps};
use project2::red_black::{Color, RBNode, RedBlackTree};

fn check_rb(node: &Option<Box<RBNode<i32>>>, lo: Option<i32>, hi: Option<i32>) -> usize {
    match node {
        None => 0,
        Some(n) => {
            if let Some(l) = lo {
                assert!(n.value > l);
            }
            if let Some(h) = hi {
                assert!(n.value < h);
            }
            if n.color == Color::Red {
                for c in [&n.left, &n.right] {
                    if let Some(c) = c {
                        assert_eq!(c.color, Color::Black, "red child of red {}", n.value);
                    }
                }
            }
            let lb = check_rb(&n.left, lo, Some(n.value));
            let rb = check_rb(&n.right, Some(n.value), hi);
            assert_eq!(lb, rb, "black heights differ at {}", n.value);
            lb + if n.color == Color::Black { 1 } else { 0 }
        }
    }
}

fn check_tree(t: &RedBlackTree<i32>) {
    if let Some(r) = &t.root {
        assert_eq!(r.color, Color::Black);
    }
    check_rb(&t.root, None, None);
}

#[test]
fn rb_new_is_empty() {
    let t: RedBlackTree<i32> = RedBlackTree::new();
    assert!(t.root.is_none());
    assert!(t.is_tree_empty());
    assert_eq!(t.height(), 0);
    assert!(!t.contains(0));
}

#[test]
fn rb_first_insert_makes_black_root() {
    let mut t: RedBlackTree<i32> = RedBlackTree::new();
    assert!(t.insert(7));
    let root = t.root.as_ref().unwrap();
    assert_eq!(root.value, 7);
    assert_eq!(root.color, Color::Black);
}

#[test]
fn rb_red_uncle_recolors() {
    let mut t: RedBlackTree<i32> = RedBlackTree::new();
    for v in [10, 5, 15, 1] {
        t.insert(v);
    }
    // the uncle 15 was red: parent and uncle turn black, the grandparent
    // (the root) turns red and is painted black again
    let root = t.root.as_ref().unwrap();
    assert_eq!(root.value, 10);
    assert_eq!(root.color, Color::Black);
    assert_eq!(root.left.as_ref().unwrap().color, Color::Black);
    assert_eq!(root.right.as_ref().unwrap().color, Color::Black);
    assert_eq!(root.left.as_ref().unwrap().left.as_ref().unwrap().color, Color::Red);
    check_tree(&t);
}

#[test]
fn rb_black_uncle_rotates() {
    let mut t: RedBlackTree<i32> = RedBlackTree::new();
    for v in [1, 2, 3] {
        t.insert(v);
    }
    let root = t.root.as_ref().unwrap();
    assert_eq!(root.value, 2);
    assert_eq!(root.color, Color::Black);
    assert_eq!(root.left.as_ref().unwrap().color, Color::Red);
    assert_eq!(root.right.as_ref().unwrap().color, Color::Red);
    let mut u: RedBlackTree<i32> = RedBlackTree::new();
    for v in [3, 1, 2] {
        u.insert(v);
    }
    let root = u.root.as_ref().unwrap();
    assert_eq!(root.value, 2);
    assert_eq!(root.left.as_ref().unwrap().value, 1);
    assert_eq!(root.right.as_ref().unwrap().value, 3);
}

#[test]
fn rb_menu_sequence() {
    let mut t: RedBlackTree<i32> = RedBlackTree::new();
    for v in [20, 10, 5, 30, 3, 25, 4, 8, 23] {
        assert!(t.insert(v));
        check_tree(&t);
    }
    assert_eq!(TreeOps::inorder_traversal(&t), vec![3, 4, 5, 8, 10, 20, 23, 25, 30]);
    assert!(!t.insert(8));
    for v in [20, 3, 25, 10] {
        assert!(t.delete(v));
        check_tree(&t);
        assert!(!t.contains(v));
    }
    assert_eq!(TreeOps::inorder_traversal(&t), vec![4, 5, 8, 23, 30]);
}

#[test]
fn rb_increasing_then_delete_all() {
    let mut t: RedBlackTree<i32> = RedBlackTree::new();
    for v in 0..1000 {
        t.insert(v);
    }
    check_tree(&t);
    assert!(t.height() <= 20);
    for v in 0..100 {
        assert!(t.contains(v));
    }
    for v in 0..1000 {
        assert!(t.delete(v));
        if v % 50 == 0 {
            check_tree(&t);
        }
    }
    assert!(t.is_tree_empty());
}

#[test]
fn rb_delete_in_mixed_order() {
    let mut t: RedBlackTree<i32> = RedBlackTree::new();
    let values: Vec<i32> = (0..300).map(|i| (i * 37) % 300).collect();
    for v in &values {
        t.insert(*v);
    }
    check_tree(&t);
    for v in values.iter().rev().step_by(2) {
        assert!(t.delete(*v));
        check_tree(&t);
    }
    assert_eq!(TreeOps::inorder_traversal(&t).len(), 150);
}

#[test]
fn rb_delete_absent_is_ignored() {
    let mut t: RedBlackTree<i32> = RedBlackTree::new();
    t.insert(4);
    assert!(!t.delete(5));
    assert_eq!(TreeOps::inorder_traversal(&t), vec![4]);
}

#[test]
fn rb_tree_ops_batch_and_clear() {
    let mut t: RedBlackTree<i32> = RedBlackTree::new();
    assert_eq!(TreeOps::insert(&mut t, vec![2, 1, 3, 1]), vec![true, true, true, false]);
    assert_eq!(TreeOps::count_leaves(&t), 2);
    assert_eq!(TreeOps::height(&t), 2);
    assert_eq!(TreeOps::delete(&mut t, vec![2, 2]), vec![true, false]);
    assert_eq!(TreeOps::inorder_traversal(&t), vec![1, 3]);
    t.clear();
    assert!(t.is_tree_empty());
}

#[test]
fn rb_node_accessors() {
    let mut t: RedBlackTree<i32> = RedBlackTree::new();
    t.insert(2);
    t.insert(1);
    let root = t.root.as_ref().unwrap();
    assert_eq!(TreeNode::color(root.as_ref()), Some(DisplayColor::Black));
    assert_eq!(TreeNode::height(root.as_ref()), None);
    let left = root.left.as_ref().unwrap();
    assert_eq!(TreeNode::color(left.as_ref()), Some(DisplayColor::Red));
}
