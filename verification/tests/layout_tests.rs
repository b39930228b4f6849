use project2::avl::{AVLNode, AvlTree};
use project2::common::DisplayColor;
use project2::layout::{layout_pattern1, layout_pattern2, Connector, PrefixPiece};
use project2::red_black::{RBNode, RedBlackTree};

fn avl_of(values: &[i32]) -> AvlTree<i32> {
    let mut t = AvlTree::new();
    for v in values {
        t.insert(*v);
    }
    t
}

#[test]
fn layout_empty_tree() {
    let t: AvlTree<i32> = AvlTree::new();
    assert!(layout_pattern1::<i32, AVLNode<i32>>(&t.root).is_empty());
    assert!(layout_pattern2::<i32, AVLNode<i32>>(&t.root).is_empty());
}

#[test]
fn layout_pattern1_three_nodes() {
    let t = avl_of(&[2, 1, 3]);
    let lines = layout_pattern1::<i32, AVLNode<i32>>(&t.root);
    assert_eq!(lines.len(), 3);
    assert!(lines[0].prefix.is_empty());
    let l0 = lines[0].label.unwrap();
    assert_eq!(l0.connector, Connector::Root);
    assert_eq!(l0.value, 2);
    assert_eq!(l0.height, Some(2));
    assert_eq!(l0.color, None);
    assert_eq!(lines[1].prefix, vec![PrefixPiece::Indent]);
    assert_eq!(lines[1].label.unwrap().connector, Connector::LeftMiddle);
    assert_eq!(lines[1].label.unwrap().value, 1);
    assert_eq!(lines[2].prefix, vec![PrefixPiece::Indent]);
    assert_eq!(lines[2].label.unwrap().connector, Connector::RightLast);
    assert_eq!(lines[2].label.unwrap().value, 3);
}

#[test]
fn layout_pattern1_deeper_prefixes() {
    // 4 with children 2 (children 1, 3) and 5
    let t = avl_of(&[4, 2, 5, 1, 3]);
    let lines = layout_pattern1::<i32, AVLNode<i32>>(&t.root);
    let values: Vec<i32> = lines.iter().map(|l| l.label.unwrap().value).collect();
    assert_eq!(values, vec![4, 2, 1, 3, 5]);
    // children of 2, which has a right sibling, get a bar
    assert_eq!(lines[2].prefix, vec![PrefixPiece::Indent, PrefixPiece::Bar]);
    assert_eq!(lines[2].label.unwrap().connector, Connector::LeftMiddle);
    assert_eq!(lines[3].prefix, vec![PrefixPiece::Indent, PrefixPiece::Bar]);
    assert_eq!(lines[3].label.unwrap().connector, Connector::RightLast);
    // a left child without a right sibling is the last one
    let u = avl_of(&[2, 1]);
    let lines = layout_pattern1::<i32, AVLNode<i32>>(&u.root);
    assert_eq!(lines[1].label.unwrap().connector, Connector::LeftLast);
}

#[test]
fn layout_pattern2_three_nodes() {
    let mut t: RedBlackTree<i32> = RedBlackTree::new();
    for v in [2, 1, 3] {
        t.insert(v);
    }
    let lines = layout_pattern2::<i32, RBNode<i32>>(&t.root);
    assert_eq!(lines.len(), 5);
    assert_eq!(lines[0].prefix, vec![PrefixPiece::StartBar]);
    assert_eq!(lines[0].label.unwrap().connector, Connector::RightAbove);
    assert_eq!(lines[0].label.unwrap().value, 3);
    assert_eq!(lines[0].label.unwrap().color, Some(DisplayColor::Red));
    assert!(lines[1].label.is_none());
    assert_eq!(lines[1].prefix, vec![PrefixPiece::StartBar]);
    assert!(lines[2].prefix.is_empty());
    assert_eq!(lines[2].label.unwrap().connector, Connector::Root);
    assert_eq!(lines[2].label.unwrap().color, Some(DisplayColor::Black));
    assert!(lines[3].label.is_none());
    assert_eq!(lines[4].label.unwrap().connector, Connector::LeftBelow);
    assert_eq!(lines[4].label.unwrap().value, 1);
}

#[test]
fn layout_pattern2_nested_prefixes() {
    let t = avl_of(&[4, 2, 5, 1, 3]);
    let lines = layout_pattern2::<i32, AVLNode<i32>>(&t.root);
    let labelled: Vec<i32> = lines.iter().filter_map(|l| l.label.map(|x| x.value)).collect();
    // right subtrees above, left ones below: reverse in-order
    assert_eq!(labelled, vec![5, 4, 3, 2, 1]);
    // 3 is the right child of the left child 2
    let three = lines.iter().find(|l| l.label.map(|x| x.value) == Some(3)).unwrap();
    assert_eq!(three.prefix, vec![PrefixPiece::StartBar, PrefixPiece::PadBar]);
    let one = lines.iter().find(|l| l.label.map(|x| x.value) == Some(1)).unwrap();
    assert_eq!(one.prefix, vec![PrefixPiece::StartBar, PrefixPiece::BackPadBar]);
}
