use project2::avl::{AVLNode, AvlTree};
use project2::common::{
    count_leaves, find_location, find_location_rel, get_grandparent, get_parent, height,
    inorder_traversal, is_left_child, rotate, Dir, InsertionPoint, LocationRel,
};

fn leaf(v: i32) -> Option<Box<AVLNode<i32>>> {
    Some(Box::new(AVLNode { value: v, height: 1, left: None, right: None }))
}

fn node(v: i32, l: Option<Box<AVLNode<i32>>>, r: Option<Box<AVLNode<i32>>>) -> Option<Box<AVLNode<i32>>> {
    Some(Box::new(AVLNode { value: v, height: 0, left: l, right: r }))
}

#[test]
fn count_leaves_and_height_of_shapes() {
    let empty: Option<Box<AVLNode<i32>>> = None;
    assert_eq!(count_leaves(&empty), 0);
    assert_eq!(height(&empty), 0);
    let t = node(5, node(3, leaf(1), None), leaf(8));
    assert_eq!(count_leaves(&t), 2);
    assert_eq!(height(&t), 3);
    assert_eq!(inorder_traversal(&t), vec![1, 3, 5, 8]);
}

#[test]
fn find_location_cases() {
    let empty: Option<Box<AVLNode<i32>>> = None;
    assert!(matches!(find_location(&empty, 4), InsertionPoint::AsRoot));
    let t = node(5, node(3, leaf(1), None), leaf(8));
    match find_location(&t, 3) {
        InsertionPoint::Existing(p) => assert_eq!(p, vec![Dir::Left]),
        _ => panic!("3 is in the tree"),
    }
    match find_location(&t, 2) {
        InsertionPoint::AtRightOf(p) => assert_eq!(p, vec![Dir::Left, Dir::Left]),
        _ => panic!("2 goes right of 1"),
    }
    match find_location(&t, 4) {
        InsertionPoint::AtRightOf(p) => assert_eq!(p, vec![Dir::Left]),
        _ => panic!("4 goes right of 3"),
    }
    match find_location(&t, 7) {
        InsertionPoint::AtLeftOf(p) => assert_eq!(p, vec![Dir::Right]),
        _ => panic!("7 goes left of 8"),
    }
}

#[test]
fn node_names() {
    let root: Vec<Dir> = vec![];
    assert_eq!(get_parent(&root), None);
    assert_eq!(get_grandparent(&root), None);
    assert!(!is_left_child(&root));
    assert_eq!(find_location_rel(&root), None);
    let n = vec![Dir::Right, Dir::Left, Dir::Left];
    assert_eq!(get_parent(&n), Some(vec![Dir::Right, Dir::Left]));
    assert_eq!(get_grandparent(&n), Some(vec![Dir::Right]));
    assert!(is_left_child(&n));
    assert_eq!(find_location_rel(&n), Some(LocationRel::LL));
    assert_eq!(find_location_rel(&vec![Dir::Left]), None);
    assert_eq!(find_location_rel(&vec![Dir::Right, Dir::Right]), Some(LocationRel::RR));
    assert_eq!(find_location_rel(&vec![Dir::Left, Dir::Right]), Some(LocationRel::LR));
    assert_eq!(find_location_rel(&vec![Dir::Right, Dir::Left]), Some(LocationRel::RL));
    assert!(!is_left_child(&vec![Dir::Left, Dir::Right]));
}

#[test]
fn rotate_ll_at_root() {
    let mut t = node(3, node(2, leaf(1), leaf(25)), leaf(4));
    rotate(&mut t, &vec![Dir::Left, Dir::Left], LocationRel::LL);
    let r = t.as_ref().unwrap();
    assert_eq!(r.value, 2);
    assert_eq!(r.left.as_ref().unwrap().value, 1);
    let g = r.right.as_ref().unwrap();
    assert_eq!(g.value, 3);
    assert_eq!(g.left.as_ref().unwrap().value, 25);
    assert_eq!(g.right.as_ref().unwrap().value, 4);
}

#[test]
fn rotate_lr_below_root() {
    // the grandparent is the right child of the root
    let mut t = node(0, leaf(-1), node(30, node(10, leaf(5), node(20, leaf(15), leaf(25))), leaf(40)));
    rotate(&mut t, &vec![Dir::Right, Dir::Left, Dir::Right], LocationRel::LR);
    assert_eq!(inorder_traversal(&t), vec![-1, 0, 5, 10, 15, 20, 25, 30, 40]);
    let n = t.as_ref().unwrap().right.as_ref().unwrap();
    assert_eq!(n.value, 20);
    let p = n.left.as_ref().unwrap();
    assert_eq!(p.value, 10);
    assert_eq!(p.right.as_ref().unwrap().value, 15);
    let g = n.right.as_ref().unwrap();
    assert_eq!(g.value, 30);
    assert_eq!(g.left.as_ref().unwrap().value, 25);
}

#[test]
fn rotate_rr_and_rl() {
    let mut t = node(1, leaf(0), node(2, leaf(15), leaf(3)));
    rotate(&mut t, &vec![Dir::Right, Dir::Right], LocationRel::RR);
    assert_eq!(t.as_ref().unwrap().value, 2);
    assert_eq!(inorder_traversal(&t), vec![0, 1, 15, 2, 3].into_iter().collect::<Vec<i32>>());
    let mut u = node(1, leaf(0), node(3, node(2, leaf(15), leaf(25)), leaf(4)));
    rotate(&mut u, &vec![Dir::Right, Dir::Left], LocationRel::RL);
    let r = u.as_ref().unwrap();
    assert_eq!(r.value, 2);
    assert_eq!(r.left.as_ref().unwrap().value, 1);
    assert_eq!(r.left.as_ref().unwrap().right.as_ref().unwrap().value, 15);
    assert_eq!(r.right.as_ref().unwrap().value, 3);
    assert_eq!(r.right.as_ref().unwrap().left.as_ref().unwrap().value, 25);
}

#[test]
fn avl_tree_uses_shared_functions() {
    let mut t: AvlTree<i32> = AvlTree::new();
    for v in [4, 2, 6, 1, 3, 5, 7] {
        t.insert(v);
    }
    assert_eq!(count_leaves(&t.root), 4);
    assert_eq!(height(&t.root), 3);
}

#[test]
fn rotations_undo_each_other() {
    let before = node(5, node(3, leaf(1), leaf(4)), node(8, leaf(7), leaf(9)));
    let mut t = node(5, node(3, leaf(1), leaf(4)), node(8, leaf(7), leaf(9)));
    // a left rotation at the root: its right child comes up
    rotate(&mut t, &vec![Dir::Right, Dir::Right], LocationRel::RR);
    assert_eq!(t.as_ref().unwrap().value, 8);
    // a right rotation at the new root brings the old root back
    rotate(&mut t, &vec![Dir::Left, Dir::Left], LocationRel::LL);
    assert_eq!(inorder_traversal(&t), inorder_traversal(&before));
    let r = t.as_ref().unwrap();
    assert_eq!(r.value, 5);
    assert_eq!(r.left.as_ref().unwrap().value, 3);
    assert_eq!(r.right.as_ref().unwrap().value, 8);
    assert_eq!(r.right.as_ref().unwrap().left.as_ref().unwrap().value, 7);
    assert_eq!(r.right.as_ref().unwrap().right.as_ref().unwrap().value, 9);
}
