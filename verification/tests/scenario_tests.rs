use project2::avl::{AVLNode, AvlTree};
use project2::common::TreeOps;
use project2::red_black::{Color, RBNode, RedBlackTree};

/// A compact description of an AVL subtree: value and height, then children.
fn avl_shape(n: &Option<Box<AVLNode<i32>>>) -> String {
    match n {
        None => "-".to_string(),
        Some(b) => format!("{}h{}({},{})", b.value, b.height, avl_shape(&b.left), avl_shape(&b.right)),
    }
}

/// A compact description of a red-black subtree: value and colour, then
/// children.
fn rb_shape(n: &Option<Box<RBNode<i32>>>) -> String {
    match n {
        None => "-".to_string(),
        Some(b) => format!(
            "{}{}({},{})",
            b.value,
            if b.color == Color::Red { "R" } else { "B" },
            rb_shape(&b.left),
            rb_shape(&b.right)
        ),
    }
}

#[test]
fn avl_delete_single_rotation() {
    let mut t: AvlTree<i32> = AvlTree::new();
    for v in [20, 10, 30, 5, 15] {
        t.insert(v);
    }
    assert_eq!(avl_shape(&t.root), "20h3(10h2(5h1(-,-),15h1(-,-)),30h1(-,-))");
    t.delete(30);
    assert_eq!(avl_shape(&t.root), "10h3(5h1(-,-),20h2(15h1(-,-),-))");
    assert_eq!(TreeOps::inorder_traversal(&t), vec![5, 10, 15, 20]);
}

#[test]
fn avl_delete_takes_predecessor() {
    let mut t: AvlTree<i32> = AvlTree::new();
    for v in [20, 10, 5, 30, 3, 25, 4, 8, 23] {
        t.insert(v);
    }
    t.delete(10);
    assert_eq!(
        avl_shape(&t.root),
        "8h4(4h2(3h1(-,-),5h1(-,-)),25h3(20h2(-,23h1(-,-)),30h1(-,-)))"
    );
    assert_eq!(TreeOps::inorder_traversal(&t), vec![3, 4, 5, 8, 20, 23, 25, 30]);
}

#[test]
fn avl_insert_menu_sequence() {
    let mut t: AvlTree<i32> = AvlTree::new();
    for v in [20, 10, 5, 30, 3, 25, 4, 8] {
        t.insert(v);
    }
    t.insert(23);
    assert_eq!(
        avl_shape(&t.root),
        "10h4(4h3(3h1(-,-),5h2(-,8h1(-,-))),25h3(20h2(-,23h1(-,-)),30h1(-,-)))"
    );
}

#[test]
fn avl_insert_without_rotation_keeps_shape() {
    let mut t: AvlTree<i32> = AvlTree::new();
    for v in [20, 10, 30, 5] {
        t.insert(v);
    }
    assert_eq!(avl_shape(&t.root), "20h3(10h2(5h1(-,-),-),30h1(-,-))");
}

#[test]
fn avl_second_insert_changes_nothing() {
    let mut t: AvlTree<i32> = AvlTree::new();
    for v in [20, 10, 5, 30, 3] {
        t.insert(v);
    }
    let before = avl_shape(&t.root);
    assert!(!t.insert(5));
    assert_eq!(avl_shape(&t.root), before);
}

#[test]
fn avl_insert_then_delete_restores_values() {
    let mut t: AvlTree<i32> = AvlTree::new();
    for v in [20, 10, 5, 30, 3] {
        t.insert(v);
    }
    assert!(t.insert(7));
    assert!(t.delete(7));
    assert_eq!(TreeOps::inorder_traversal(&t), vec![3, 5, 10, 20, 30]);
}

#[test]
fn rb_delete_black_leaf() {
    let mut t: RedBlackTree<i32> = RedBlackTree::new();
    for v in [20, 10, 5, 30, 3, 25, 4, 8, 23] {
        t.insert(v);
    }
    t.delete(3);
    assert_eq!(
        rb_shape(&t.root),
        "10B(5R(4B(-,-),8B(-,-)),25R(20B(-,23R(-,-)),30B(-,-)))"
    );
}

#[test]
fn rb_insert_menu_sequence() {
    let mut t: RedBlackTree<i32> = RedBlackTree::new();
    for v in [20, 10, 5, 30, 3, 25, 4, 8] {
        t.insert(v);
    }
    t.insert(23);
    assert_eq!(
        rb_shape(&t.root),
        "10B(4R(3B(-,-),5B(-,8R(-,-))),25R(20B(-,23R(-,-)),30B(-,-)))"
    );
}

#[test]
fn rb_insert_three_increasing() {
    let mut t: RedBlackTree<i32> = RedBlackTree::new();
    for v in [10, 20, 30] {
        t.insert(v);
    }
    assert_eq!(rb_shape(&t.root), "20B(10R(-,-),30R(-,-))");
}

#[test]
fn rb_second_insert_changes_nothing() {
    let mut t: RedBlackTree<i32> = RedBlackTree::new();
    for v in [20, 10, 5, 30] {
        t.insert(v);
    }
    let before = rb_shape(&t.root);
    assert!(!t.insert(30));
    assert_eq!(rb_shape(&t.root), before);
}

#[test]
fn default_trees_are_empty() {
    let a: AvlTree<i32> = AvlTree::default();
    let r: RedBlackTree<i32> = RedBlackTree::default();
    assert!(a.root.is_none());
    assert!(r.root.is_none());
    assert!(format!("{:?}", a).contains("None"));
}

#[test]
fn rb_insert_then_delete_restores_values() {
    let mut t: RedBlackTree<i32> = RedBlackTree::new();
    for v in [20, 10, 5, 30, 3, 25, 4, 8] {
        t.insert(v);
    }
    let before = TreeOps::inorder_traversal(&t);
    assert!(t.insert(23));
    assert!(t.delete(23));
    assert_eq!(TreeOps::inorder_traversal(&t), before);
    assert!(t.contains(20) && !t.contains(23));
}

/// fib(k) for small k.
fn fib(k: usize) -> u64 {
    let (mut a, mut b) = (0u64, 1u64);
    for _ in 0..k {
        let c = a + b;
        a = b;
        b = c;
    }
    a
}

#[test]
fn heights_bounded_by_number_of_values() {
    let mut avl: AvlTree<i32> = AvlTree::new();
    let mut rb: RedBlackTree<i32> = RedBlackTree::new();
    for i in 0..3000 {
        let v = (i * 7919) % 5003;
        avl.insert(v);
        rb.insert(v);
        let n = TreeOps::inorder_traversal(&avl).len() as u64;
        let ha = TreeOps::height(&avl);
        assert!(fib(ha + 2) <= n + 1);
        assert!(1u64 << (ha / 2) <= n + 1);
        let hr = TreeOps::height(&rb);
        assert!(1u64 << (hr / 2) <= n + 1);
    }
}
