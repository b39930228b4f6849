use project2::avl::{AVLNode, AvlTree};
use project2::common::{TreeNode, TreeOps};

fn check_avl(node: &Option<Box<AVLNode<i32>>>, lo: Option<i32>, hi: Option<i32>) -> i32 {
    match node {
        None => 0,
        Some(n) => {
            if let Some(l) = lo {
                assert!(n.value > l);
            }
            if let Some(h) = hi {
                assert!(n.value < h);
            }
            let lh = check_avl(&n.left, lo, Some(n.value));
            let rh = check_avl(&n.right, Some(n.value), hi);
            assert!((lh - rh).abs() <= 1, "unbalanced at {}", n.value);
            let h = lh.max(rh) + 1;
            assert_eq!(n.height, h, "stale height at {}", n.value);
            h
        }
    }
}

#[test]
fn avl_new_is_empty() {
    let t: AvlTree<i32> = AvlTree::new();
    assert!(t.root.is_none());
    assert!(t.is_tree_empty());
    assert_eq!(t.height(), 0);
    assert_eq!(t.count_leaves(), 0);
    assert!(!t.contains(1));
}

#[test]
fn avl_insert_and_contains() {
    let mut t: AvlTree<i32> = AvlTree::new();
    for v in [20, 10, 5, 30, 3, 25, 4, 8, 23] {
        assert!(t.insert(v));
        check_avl(&t.root, None, None);
    }
    for v in [20, 10, 5, 30, 3, 25, 4, 8, 23] {
        assert!(t.contains(v));
    }
    assert!(!t.contains(7));
    assert!(!t.contains(100));
    assert_eq!(TreeOps::inorder_traversal(&t), vec![3, 4, 5, 8, 10, 20, 23, 25, 30]);
}

#[test]
fn avl_duplicate_insert_is_ignored() {
    let mut t: AvlTree<i32> = AvlTree::new();
    t.insert(1);
    t.insert(2);
    assert!(!t.insert(2));
    assert_eq!(TreeOps::inorder_traversal(&t), vec![1, 2]);
}

#[test]
fn avl_ll_rotation() {
    let mut t: AvlTree<i32> = AvlTree::new();
    t.insert(3);
    t.insert(2);
    t.insert(1);
    let root = t.root.as_ref().unwrap();
    assert_eq!(root.value, 2);
    assert_eq!(root.height, 2);
    assert_eq!(root.left.as_ref().unwrap().value, 1);
    assert_eq!(root.right.as_ref().unwrap().value, 3);
    assert_eq!(root.right.as_ref().unwrap().height, 1);
}

#[test]
fn avl_rr_rotation() {
    let mut t: AvlTree<i32> = AvlTree::new();
    t.insert(1);
    t.insert(2);
    t.insert(3);
    let root = t.root.as_ref().unwrap();
    assert_eq!(root.value, 2);
    assert_eq!(root.left.as_ref().unwrap().value, 1);
    assert_eq!(root.right.as_ref().unwrap().value, 3);
}

#[test]
fn avl_lr_rotation() {
    let mut t: AvlTree<i32> = AvlTree::new();
    t.insert(3);
    t.insert(1);
    t.insert(2);
    let root = t.root.as_ref().unwrap();
    assert_eq!(root.value, 2);
    assert_eq!(root.left.as_ref().unwrap().value, 1);
    assert_eq!(root.right.as_ref().unwrap().value, 3);
    check_avl(&t.root, None, None);
}

#[test]
fn avl_rl_rotation() {
    let mut t: AvlTree<i32> = AvlTree::new();
    t.insert(1);
    t.insert(3);
    t.insert(2);
    let root = t.root.as_ref().unwrap();
    assert_eq!(root.value, 2);
    assert_eq!(root.left.as_ref().unwrap().value, 1);
    assert_eq!(root.right.as_ref().unwrap().value, 3);
}

#[test]
fn avl_increasing_inserts_stay_balanced() {
    let mut t: AvlTree<i32> = AvlTree::new();
    for v in 0..1000 {
        t.insert(v);
    }
    let h = check_avl(&t.root, None, None);
    assert!(h <= 15);
    assert_eq!(t.height(), h as usize);
    let values = TreeOps::inorder_traversal(&t);
    assert_eq!(values, (0..1000).collect::<Vec<i32>>());
}

#[test]
fn avl_delete_leaf_one_child_two_children() {
    let mut t: AvlTree<i32> = AvlTree::new();
    for v in [20, 10, 30, 5, 15, 25, 35, 3] {
        t.insert(v);
    }
    // a leaf
    assert!(t.delete(35));
    check_avl(&t.root, None, None);
    // a node with one child
    assert!(t.delete(5));
    check_avl(&t.root, None, None);
    // a node with two children takes its predecessor's value
    assert!(t.delete(20));
    check_avl(&t.root, None, None);
    assert_eq!(t.root.as_ref().unwrap().value, 15);
    assert_eq!(TreeOps::inorder_traversal(&t), vec![3, 10, 15, 25, 30]);
    assert!(!t.contains(20));
}

#[test]
fn avl_delete_absent_is_ignored() {
    let mut t: AvlTree<i32> = AvlTree::new();
    t.insert(1);
    assert!(!t.delete(2));
    assert_eq!(TreeOps::inorder_traversal(&t), vec![1]);
    let mut e: AvlTree<i32> = AvlTree::new();
    assert!(!e.delete(1));
    assert!(e.is_tree_empty());
}

#[test]
fn avl_delete_everything() {
    let mut t: AvlTree<i32> = AvlTree::new();
    for v in 0..200 {
        t.insert(v);
    }
    for v in 0..200 {
        assert!(t.delete(v));
        check_avl(&t.root, None, None);
    }
    assert!(t.is_tree_empty());
}

#[test]
fn avl_delete_rebalances() {
    let mut t: AvlTree<i32> = AvlTree::new();
    for v in [10, 5, 15, 3, 7, 20, 1] {
        t.insert(v);
    }
    // removing from the right side leaves the left side two levels taller
    t.delete(20);
    t.delete(15);
    check_avl(&t.root, None, None);
    assert_eq!(t.root.as_ref().unwrap().value, 5);
}

#[test]
fn avl_tree_ops_batch() {
    let mut t: AvlTree<i32> = AvlTree::new();
    let flags = TreeOps::insert(&mut t, vec![5, 3, 5, 8]);
    assert_eq!(flags, vec![true, true, false, true]);
    assert_eq!(TreeOps::count_leaves(&t), 2);
    assert_eq!(TreeOps::height(&t), 2);
    let flags = TreeOps::delete(&mut t, vec![3, 3, 9]);
    assert_eq!(flags, vec![true, false, false]);
    assert_eq!(TreeOps::inorder_traversal(&t), vec![5, 8]);
    t.clear();
    assert!(t.is_tree_empty());
}

#[test]
fn avl_node_accessors() {
    let mut t: AvlTree<i32> = AvlTree::new();
    t.insert(2);
    t.insert(1);
    let root = t.root.as_ref().unwrap();
    assert_eq!(*TreeNode::value(root.as_ref()), 2);
    assert_eq!(TreeNode::height(root.as_ref()), Some(2));
    assert_eq!(TreeNode::color(root.as_ref()), None);
    assert!(TreeNode::left(root.as_ref()).is_some());
    assert!(TreeNode::right(root.as_ref()).is_none());
}
