use vstd::prelude::*;

use crate::common::{
    count_leaves, find_location_rel, height, inorder, inorder_traversal, is_bst, leaf_count,
    lemma_bst_len, lemma_inorder_sorted, lemma_rotations_undo, lemma_rotation_preserves_order, lemma_subtree_at_two, lemma_unfold,
    rotate, rotated, tree_height, tree_set, Dir, DisplayColor, LocationRel, TreeNode,
    TreeOps,
};
use crate::order::{key_order, lemma_key_order, less, lt, same};
use vstd::arithmetic::power2::{
    lemma2_to64, lemma_pow2_strictly_increases, lemma_pow2_unfold, pow2,
};

verus! {

#[derive(Debug, Clone, Copy, PartialEq, Eq, Structural)]
pub enum Color {
    Red,
    Black,
}

/// A node of a red-black tree.
#[derive(Debug)]
pub struct RBNode<T: Ord + Copy> {
    pub value: T,
    pub color: Color,
    pub left: Option<Box<RBNode<T>>>,
    pub right: Option<Box<RBNode<T>>>,
}

/// A self-balancing search tree: no red node has a red child, and every
/// path from a node down to a missing child meets the same number of black
/// nodes.
#[derive(Debug)]
pub struct RedBlackTree<T: Ord + Copy> {
    pub root: Option<Box<RBNode<T>>>,
}

pub open spec fn rb_size<T: Ord + Copy>(n: Option<Box<RBNode<T>>>) -> nat
    decreases n,
{
    match n {
        None => 0,
        Some(b) => 1 + rb_size(b.left) + rb_size(b.right),
    }
}

/// The subtree has a red root; a missing subtree counts as black.
pub open spec fn is_red<T: Ord + Copy>(n: Option<Box<RBNode<T>>>) -> bool {
    n matches Some(b) && b.color == Color::Red
}

/// Number of black nodes on the leftmost path down from the root of the
/// subtree (every path, in a valid subtree).
pub open spec fn black_height<T: Ord + Copy>(n: Option<Box<RBNode<T>>>) -> nat
    decreases n,
{
    match n {
        None => 0,
        Some(b) => black_height(b.left) + if b.color == Color::Black {
            1nat
        } else {
            0nat
        },
    }
}

/// No red node has a red child, and both subtrees of every node have the
/// same black height. The root itself may be red.
pub open spec fn rb_valid<T: Ord + Copy>(n: Option<Box<RBNode<T>>>) -> bool
    decreases n,
{
    match n {
        None => true,
        Some(b) => {
            &&& rb_valid(b.left)
            &&& rb_valid(b.right)
            &&& black_height(b.left) == black_height(b.right)
            &&& b.color == Color::Red ==> !is_red(b.left) && !is_red(b.right)
        },
    }
}

/// A red root with at most one red child, over valid subtrees of equal
/// black height: the only flaw an insertion leaves below a red node.
pub open spec fn red_flaw<T: Ord + Copy>(n: Option<Box<RBNode<T>>>) -> bool {
    n matches Some(b) && b.color == Color::Red && rb_valid(b.left) && rb_valid(b.right)
        && black_height(b.left) == black_height(b.right) && !(is_red(b.left) && is_red(b.right))
}

/// The values held by a subtree.
pub open spec fn rb_values<T: Ord + Copy>(n: Option<Box<RBNode<T>>>) -> Set<T> {
    tree_set::<T, RBNode<T>>(n)
}

/// The subtree is a search tree.
pub open spec fn rb_ordered<T: Ord + Copy>(n: Option<Box<RBNode<T>>>) -> bool {
    is_bst::<T, RBNode<T>>(n)
}

impl<T: Ord + Copy> TreeNode<T> for RBNode<T> {
    open spec fn spec_value(&self) -> T {
        self.value
    }

    open spec fn spec_left(&self) -> Option<Box<Self>> {
        self.left
    }

    open spec fn spec_right(&self) -> Option<Box<Self>> {
        self.right
    }

    open spec fn spec_with_left(&self, l: Option<Box<Self>>) -> Self {
        RBNode { left: l, ..*self }
    }

    open spec fn spec_with_right(&self, r: Option<Box<Self>>) -> Self {
        RBNode { right: r, ..*self }
    }

    open spec fn spec_size(&self) -> nat {
        1 + rb_size(self.left) + rb_size(self.right)
    }

    open spec fn spec_color(&self) -> Option<DisplayColor> {
        Some(
            match self.color {
                Color::Red => DisplayColor::Red,
                Color::Black => DisplayColor::Black,
            },
        )
    }

    open spec fn spec_stored_height(&self) -> Option<usize> {
        None
    }

    proof fn lemma_children_smaller(&self) {
    }

    proof fn lemma_with_laws(&self, a: Option<Box<Self>>, b: Option<Box<Self>>) {
    }

    fn value(&self) -> (r: &T) {
        &self.value
    }

    fn left(&self) -> (r: &Option<Box<Self>>) {
        &self.left
    }

    fn right(&self) -> (r: &Option<Box<Self>>) {
        &self.right
    }

    fn color(&self) -> (r: Option<DisplayColor>) {
        Some(
            match self.color {
                Color::Red => DisplayColor::Red,
                Color::Black => DisplayColor::Black,
            },
        )
    }

    fn height(&self) -> (r: Option<usize>) {
        None
    }

    fn left_mut(&mut self) -> (r: &mut Option<Box<Self>>) {
        &mut self.left
    }

    fn right_mut(&mut self) -> (r: &mut Option<Box<Self>>) {
        &mut self.right
    }
}

/// `n` with colour `c`.
pub open spec fn rb_painted<T: Ord + Copy>(n: RBNode<T>, c: Color) -> RBNode<T> {
    RBNode { color: c, ..n }
}

/// `n` with its colour flipped.
pub open spec fn rb_recolored<T: Ord + Copy>(n: RBNode<T>) -> RBNode<T> {
    rb_painted(
        n,
        if n.color == Color::Black {
            Color::Red
        } else {
            Color::Black
        },
    )
}

/// Left rotation around `x`: its right child `y` takes its place, `x`
/// becomes the left child of `y` and keeps the former left subtree of `y`
/// as its right subtree.
pub open spec fn rb_left_rotate<T: Ord + Copy>(x: RBNode<T>) -> RBNode<T> {
    let y = *x.right.unwrap();
    RBNode { left: Some(Box::new(RBNode { right: y.left, ..x })), ..y }
}

/// Right rotation around `x`: the mirror image of the left rotation.
pub open spec fn rb_right_rotate<T: Ord + Copy>(x: RBNode<T>) -> RBNode<T> {
    let y = *x.left.unwrap();
    RBNode { right: Some(Box::new(RBNode { left: y.right, ..x })), ..y }
}

/// Whether the child of `g` on the left (`left`) or right side is red with a
/// red child.
pub open spec fn rb_red_conflict<T: Ord + Copy>(g: RBNode<T>, left: bool) -> bool {
    let c = if left {
        g.left
    } else {
        g.right
    };
    is_red(c) && (is_red(c.unwrap().left) || is_red(c.unwrap().right))
}

/// The repair at the grandparent `g` after an insertion below it. Without a
/// red child that has a red child, nothing changes. With a red uncle, `g`,
/// the parent and the uncle change colour. With a black uncle, `g` is
/// rotated (`LL`/`RR` when the red grandchild is on the outside, `LR`/`RL`
/// when it is on the inside), then `g` and the node that came up change
/// colour.
pub open spec fn rb_rebalance_insert<T: Ord + Copy>(g: RBNode<T>) -> RBNode<T> {
    let left_flaw = rb_red_conflict(g, true);
    let right_flaw = !left_flaw && rb_red_conflict(g, false);
    if !left_flaw && !right_flaw {
        g
    } else if (left_flaw && is_red(g.right)) || (right_flaw && is_red(g.left)) {
        RBNode {
            left: Some(Box::new(rb_recolored(*g.left.unwrap()))),
            right: Some(Box::new(rb_recolored(*g.right.unwrap()))),
            ..rb_recolored(g)
        }
    } else {
        let rel = if left_flaw {
            if is_red(g.left.unwrap().left) {
                LocationRel::LL
            } else {
                LocationRel::LR
            }
        } else {
            if is_red(g.right.unwrap().right) {
                LocationRel::RR
            } else {
                LocationRel::RL
            }
        };
        let t = rotated::<T, RBNode<T>>(g, rel);
        let t2 = if left_flaw {
            RBNode { right: Some(Box::new(rb_recolored(*t.right.unwrap()))), ..t }
        } else {
            RBNode { left: Some(Box::new(rb_recolored(*t.left.unwrap()))), ..t }
        };
        rb_recolored(t2)
    }
}

/// Insertion of `value` into the subtree `node`: the search goes down by the
/// order, a new red leaf takes the empty place, and every node on the way
/// back up repairs red-red conflicts below it as a grandparent. A value
/// already present leaves the subtree as it is. The flag tells whether the
/// value was new.
pub open spec fn rb_insert_node<T: Ord + Copy>(node: Option<Box<RBNode<T>>>, value: T) -> (
    Option<Box<RBNode<T>>>,
    bool,
)
    decreases node,
{
    match node {
        None => (Some(Box::new(RBNode { value, color: Color::Red, left: None, right: None })), true),
        Some(n) => if n.value == value {
            (node, false)
        } else if lt(value, n.value) {
            let (l, inserted) = rb_insert_node(n.left, value);
            if !inserted {
                (node, false)
            } else {
                (Some(Box::new(rb_rebalance_insert(RBNode { left: l, ..*n }))), true)
            }
        } else {
            let (r, inserted) = rb_insert_node(n.right, value);
            if !inserted {
                (node, false)
            } else {
                (Some(Box::new(rb_rebalance_insert(RBNode { right: r, ..*n }))), true)
            }
        },
    }
}

/// The tree `root` after inserting `value`: the insertion, then a red root
/// is painted black.
pub open spec fn rb_insert_tree<T: Ord + Copy>(root: Option<Box<RBNode<T>>>, value: T) -> Option<
    Box<RBNode<T>>,
> {
    let (r, inserted) = rb_insert_node(root, value);
    if !inserted {
        root
    } else if is_red(r) {
        Some(Box::new(rb_painted(*r.unwrap(), Color::Black)))
    } else {
        r
    }
}

/// Cases 2 to 4 of the repair after a deletion, at `n` whose child on the
/// side of `x_is_left` lacks one black node and whose other child, the
/// sibling, is black. Case 2 (both children of the sibling black): the
/// sibling turns red, and a red `n` turns black, which ends the repair, while
/// a black `n` passes the lack up. Case 3 (the far child of the sibling
/// black): the sibling's near child turns black, the sibling red, and the
/// sibling is rotated away from `x`. Case 4: the sibling takes the colour of
/// `n`, `n` and the far child turn black, and `n` is rotated towards `x`.
pub open spec fn rb_fix_deficit<T: Ord + Copy>(n: RBNode<T>, x_is_left: bool) -> (RBNode<T>, bool) {
    if x_is_left {
        let w = *n.right.unwrap();
        let w_left_black = !is_red(w.left);
        let w_right_black = !is_red(w.right);
        if w_left_black && w_right_black {
            let n2 = RBNode { right: Some(Box::new(rb_painted(w, Color::Red))), ..n };
            if n.color == Color::Red {
                (rb_painted(n2, Color::Black), false)
            } else {
                (n2, true)
            }
        } else {
            let n3 = if w_right_black {
                let w1 = RBNode {
                    left: Some(Box::new(rb_painted(*w.left.unwrap(), Color::Black))),
                    color: Color::Red,
                    ..w
                };
                RBNode { right: Some(Box::new(rb_right_rotate(w1))), ..n }
            } else {
                n
            };
            let w4 = *n3.right.unwrap();
            let w5 = RBNode {
                color: n3.color,
                right: Some(Box::new(rb_painted(*w4.right.unwrap(), Color::Black))),
                ..w4
            };
            (rb_left_rotate(RBNode { right: Some(Box::new(w5)), color: Color::Black, ..n3 }), false)
        }
    } else {
        let w = *n.left.unwrap();
        let w_left_black = !is_red(w.left);
        let w_right_black = !is_red(w.right);
        if w_left_black && w_right_black {
            let n2 = RBNode { left: Some(Box::new(rb_painted(w, Color::Red))), ..n };
            if n.color == Color::Red {
                (rb_painted(n2, Color::Black), false)
            } else {
                (n2, true)
            }
        } else {
            let n3 = if w_left_black {
                let w1 = RBNode {
                    right: Some(Box::new(rb_painted(*w.right.unwrap(), Color::Black))),
                    color: Color::Red,
                    ..w
                };
                RBNode { left: Some(Box::new(rb_left_rotate(w1))), ..n }
            } else {
                n
            };
            let w4 = *n3.left.unwrap();
            let w5 = RBNode {
                color: n3.color,
                left: Some(Box::new(rb_painted(*w4.left.unwrap(), Color::Black))),
                ..w4
            };
            (rb_right_rotate(RBNode { left: Some(Box::new(w5)), color: Color::Black, ..n3 }), false)
        }
    }
}

/// The repair at `n` after its child on the side of `x_is_left`, `x`, lost
/// one black node on every path. A red `x` is painted black and nothing else
/// changes. A red sibling (case 1) turns black, `n` turns red and is rotated
/// towards `x`, and the repair continues at `n` with cases 2 to 4. Otherwise
/// cases 2 to 4 apply at `n`. The flag tells whether the lack passes up.
pub open spec fn rb_rebalance_delete<T: Ord + Copy>(n: RBNode<T>, x_is_left: bool) -> (
    RBNode<T>,
    bool,
) {
    if x_is_left {
        if is_red(n.left) {
            (RBNode { left: Some(Box::new(rb_painted(*n.left.unwrap(), Color::Black))), ..n }, false)
        } else if is_red(n.right) {
            let n1 = RBNode {
                right: Some(Box::new(rb_painted(*n.right.unwrap(), Color::Black))),
                color: Color::Red,
                ..n
            };
            let top = rb_left_rotate(n1);
            let fixed = rb_fix_deficit(*top.left.unwrap(), true).0;
            (RBNode { left: Some(Box::new(fixed)), ..top }, false)
        } else {
            rb_fix_deficit(n, true)
        }
    } else {
        if is_red(n.right) {
            (RBNode { right: Some(Box::new(rb_painted(*n.right.unwrap(), Color::Black))), ..n }, false)
        } else if is_red(n.left) {
            let n1 = RBNode {
                left: Some(Box::new(rb_painted(*n.left.unwrap(), Color::Black))),
                color: Color::Red,
                ..n
            };
            let top = rb_right_rotate(n1);
            let fixed = rb_fix_deficit(*top.right.unwrap(), false).0;
            (RBNode { right: Some(Box::new(fixed)), ..top }, false)
        } else {
            rb_fix_deficit(n, false)
        }
    }
}

/// Removal of the largest value of the subtree `n`: its rightmost node is
/// replaced by its left child; when that node was black, the repair runs on
/// the way back up. Gives the rest of the subtree, the value, and whether
/// the subtree lost one black node on every path.
pub open spec fn rb_delete_max<T: Ord + Copy>(n: RBNode<T>) -> (Option<Box<RBNode<T>>>, T, bool)
    decreases n,
{
    match n.right {
        None => (n.left, n.value, n.color == Color::Black),
        Some(r) => {
            let (rest, max, short) = rb_delete_max(*r);
            let n2 = RBNode { right: rest, ..n };
            if short {
                let (top, still_short) = rb_rebalance_delete(n2, false);
                (Some(Box::new(top)), max, still_short)
            } else {
                (Some(Box::new(n2)), max, false)
            }
        },
    }
}

/// Deletion of `value` from the subtree `node`: a node with at most one
/// child is replaced by that child; a node with two children takes the
/// value of its in-order predecessor, whose node is removed from the left
/// subtree instead; where a black node went, the repair runs on the way back
/// up. The flags tell whether the value was there and whether the subtree
/// lost one black node on every path.
pub open spec fn rb_delete_node<T: Ord + Copy>(node: Option<Box<RBNode<T>>>, value: T) -> (
    Option<Box<RBNode<T>>>,
    bool,
    bool,
)
    decreases node,
{
    match node {
        None => (None, false, false),
        Some(z) => if z.value == value {
            if z.left is None {
                (z.right, true, z.color == Color::Black)
            } else if z.right is None {
                (z.left, true, z.color == Color::Black)
            } else {
                let (rest, pred, short) = rb_delete_max(*z.left.unwrap());
                let z2 = RBNode { left: rest, value: pred, ..*z };
                if short {
                    let (top, still_short) = rb_rebalance_delete(z2, true);
                    (Some(Box::new(top)), true, still_short)
                } else {
                    (Some(Box::new(z2)), true, false)
                }
            }
        } else if lt(value, z.value) {
            let (l, deleted, short) = rb_delete_node(z.left, value);
            let z2 = RBNode { left: l, ..*z };
            if short {
                let (top, still_short) = rb_rebalance_delete(z2, true);
                (Some(Box::new(top)), true, still_short)
            } else {
                (Some(Box::new(z2)), deleted, false)
            }
        } else {
            let (r, deleted, short) = rb_delete_node(z.right, value);
            let z2 = RBNode { right: r, ..*z };
            if short {
                let (top, still_short) = rb_rebalance_delete(z2, false);
                (Some(Box::new(top)), true, still_short)
            } else {
                (Some(Box::new(z2)), deleted, false)
            }
        },
    }
}

/// The tree `root` after deleting `value`: the deletion, then a red root is
/// painted black.
pub open spec fn rb_delete_tree<T: Ord + Copy>(root: Option<Box<RBNode<T>>>, value: T) -> Option<
    Box<RBNode<T>>,
> {
    let r = rb_delete_node(root, value).0;
    if is_red(r) {
        Some(Box::new(rb_painted(*r.unwrap(), Color::Black)))
    } else {
        r
    }
}

/// The tree `root` after inserting the values of `s` one after the other.
pub open spec fn rb_insert_all<T: Ord + Copy>(root: Option<Box<RBNode<T>>>, s: Seq<T>) -> Option<
    Box<RBNode<T>>,
>
    decreases s.len(),
{
    if s.len() == 0 {
        root
    } else {
        rb_insert_tree(rb_insert_all(root, s.drop_last()), s.last())
    }
}

/// The tree `root` after deleting the values of `s` one after the other.
pub open spec fn rb_delete_all<T: Ord + Copy>(root: Option<Box<RBNode<T>>>, s: Seq<T>) -> Option<
    Box<RBNode<T>>,
>
    decreases s.len(),
{
    if s.len() == 0 {
        root
    } else {
        rb_delete_tree(rb_delete_all(root, s.drop_last()), s.last())
    }
}

/// Two nodes with the same value whose children hold the same values, in
/// the same order, hold the same values in the same order.
pub proof fn lemma_rb_congruent<T: Ord + Copy>(a: RBNode<T>, b: RBNode<T>)
    requires
        a.value == b.value,
        rb_values(a.left) == rb_values(b.left),
        rb_values(a.right) == rb_values(b.right),
        rb_ordered(a.left) == rb_ordered(b.left),
        rb_ordered(a.right) == rb_ordered(b.right),
    ensures
        rb_values(Some(Box::new(a))) == rb_values(Some(Box::new(b))),
        rb_ordered(Some(Box::new(a))) == rb_ordered(Some(Box::new(b))),
{
    lemma_unfold::<T, RBNode<T>>(a);
    lemma_unfold::<T, RBNode<T>>(b);
}

/// A right rotation undoes a left rotation at the node that came up, and a
/// left rotation undoes a right rotation: every link and colour comes back
/// as it was.
pub proof fn lemma_rb_rotations_undo<T: Ord + Copy>(x: RBNode<T>)
    ensures
        x.right is Some ==> rb_right_rotate(rb_left_rotate(x)) == x,
        x.left is Some ==> rb_left_rotate(rb_right_rotate(x)) == x,
{
    lemma_rotations_undo::<T, RBNode<T>>(x);
    if x.right is Some {
        assert(rb_left_rotate(x) == rotated::<T, RBNode<T>>(x, LocationRel::RR));
        let t = rb_left_rotate(x);
        assert(rb_right_rotate(t) == rotated::<T, RBNode<T>>(t, LocationRel::LL));
    }
    if x.left is Some {
        assert(rb_right_rotate(x) == rotated::<T, RBNode<T>>(x, LocationRel::LL));
        let t = rb_right_rotate(x);
        assert(rb_left_rotate(t) == rotated::<T, RBNode<T>>(t, LocationRel::RR));
    }
}

/// Recolouring flips the colour of a node and changes nothing else, so
/// recolouring twice gives the node back.
pub proof fn lemma_rb_recolor_twice<T: Ord + Copy>(n: RBNode<T>)
    ensures
        rb_recolored(n).color != n.color,
        rb_recolored(n).value == n.value,
        rb_recolored(n).left == n.left,
        rb_recolored(n).right == n.right,
        rb_recolored(rb_recolored(n)) == n,
{
}

/// What the repair after a deletion does at `n`, whose child `x` on the
/// side of `x_is_left` lacks one black node, case by case (`w` is the
/// sibling of `x`, the near nephew the child of `w` on the side of `x`, the
/// far nephew the other one):
/// - a red `x` is painted black, and nothing else changes;
/// - a red sibling comes up black in the place of `n` and keeps its far
///   subtree; below it, `n`, now red with the near nephew's subtree as its
///   inner child, is repaired in the same way (its sibling is black then);
/// - a black sibling with two black children is painted red, `n` turns
///   black, and the lack passes up exactly when `n` was black;
/// - a black sibling with a red far nephew, whatever the colour of the near
///   one, takes the place and the colour of `n` by one rotation towards `x`:
///   `n` comes down black with the near nephew's subtree as its inner child,
///   and the far nephew turns black;
/// - a black sibling with a red near nephew and a black far one: the near
///   nephew comes up in the place and colour of `n`, with `n` and the
///   sibling, both black, as its children, each taking the near nephew's
///   subtree on its side.
/// In the last three cases nothing passes up but in the second.
pub proof fn lemma_rb_rebalance_delete_cases<T: Ord + Copy>(n: RBNode<T>, x_is_left: bool)
    requires
        x_is_left ==> n.right is Some,
        !x_is_left ==> n.left is Some,
    ensures
        ({
            let (r, short) = rb_rebalance_delete(n, x_is_left);
            if x_is_left {
                let w = *n.right.unwrap();
                &&& is_red(n.left) ==> r == RBNode {
                    left: Some(Box::new(RBNode { color: Color::Black, ..*n.left.unwrap() })),
                    ..n
                } && !short
                &&& (!is_red(n.left) && w.color == Color::Red) ==> r.value == w.value && r.color
                    == Color::Black && r.right == w.right && !short
                &&& (!is_red(n.left) && w.color == Color::Red && !is_red(w.left)) ==> r.left == Some(
                    Box::new(
                        rb_rebalance_delete(
                            RBNode { right: w.left, color: Color::Red, ..n },
                            true,
                        ).0,
                    ),
                )
                &&& (!is_red(n.left) && w.color == Color::Black && !is_red(w.left) && !is_red(
                    w.right,
                )) ==> r == RBNode {
                    right: Some(Box::new(RBNode { color: Color::Red, ..w })),
                    color: Color::Black,
                    ..n
                } && short == (n.color == Color::Black)
                &&& (!is_red(n.left) && w.color == Color::Black && is_red(w.right)) ==> r
                    == RBNode {
                    left: Some(Box::new(RBNode { right: w.left, color: Color::Black, ..n })),
                    right: Some(Box::new(RBNode { color: Color::Black, ..*w.right.unwrap() })),
                    color: n.color,
                    ..w
                } && !short
                &&& (!is_red(n.left) && w.color == Color::Black && is_red(w.left) && !is_red(
                    w.right,
                )) ==> ({
                    let c = *w.left.unwrap();
                    r == RBNode {
                        left: Some(Box::new(RBNode { right: c.left, color: Color::Black, ..n })),
                        right: Some(Box::new(RBNode { left: c.right, color: Color::Black, ..w })),
                        color: n.color,
                        ..c
                    } && !short
                })
            } else {
                let w = *n.left.unwrap();
                &&& is_red(n.right) ==> r == RBNode {
                    right: Some(Box::new(RBNode { color: Color::Black, ..*n.right.unwrap() })),
                    ..n
                } && !short
                &&& (!is_red(n.right) && w.color == Color::Red) ==> r.value == w.value && r.color
                    == Color::Black && r.left == w.left && !short
                &&& (!is_red(n.right) && w.color == Color::Red && !is_red(w.right)) ==> r.right
                    == Some(
                    Box::new(
                        rb_rebalance_delete(
                            RBNode { left: w.right, color: Color::Red, ..n },
                            false,
                        ).0,
                    ),
                )
                &&& (!is_red(n.right) && w.color == Color::Black && !is_red(w.left) && !is_red(
                    w.right,
                )) ==> r == RBNode {
                    left: Some(Box::new(RBNode { color: Color::Red, ..w })),
                    color: Color::Black,
                    ..n
                } && short == (n.color == Color::Black)
                &&& (!is_red(n.right) && w.color == Color::Black && is_red(w.left)) ==> r
                    == RBNode {
                    right: Some(Box::new(RBNode { left: w.right, color: Color::Black, ..n })),
                    left: Some(Box::new(RBNode { color: Color::Black, ..*w.left.unwrap() })),
                    color: n.color,
                    ..w
                } && !short
                &&& (!is_red(n.right) && w.color == Color::Black && is_red(w.right) && !is_red(
                    w.left,
                )) ==> ({
                    let c = *w.right.unwrap();
                    r == RBNode {
                        right: Some(Box::new(RBNode { left: c.right, color: Color::Black, ..n })),
                        left: Some(Box::new(RBNode { right: c.left, color: Color::Black, ..w })),
                        color: n.color,
                        ..c
                    } && !short
                })
            }
        }),
{
}

/// What the repair after an insertion does at a black grandparent `g`. With
/// no red child that has a red child, nothing changes. With a red parent
/// `p` that has a red child (the left side first), and a red uncle: `g`
/// turns red and the parent and the uncle black, nothing else changes. With
/// a black uncle: the red child on the outside of `p` leaves `p` on top
/// (one rotation), the one on the inside comes up itself (two rotations);
/// the node on top is black, the other two of `g`, `p` and that child are
/// its red children, and the four subtrees below them keep their order.
pub proof fn lemma_rb_rebalance_insert_cases<T: Ord + Copy>(g: RBNode<T>)
    requires
        g.color == Color::Black,
    ensures
        ({
            let r = rb_rebalance_insert(g);
            let left_flaw = rb_red_conflict(g, true);
            let right_flaw = !left_flaw && rb_red_conflict(g, false);
            &&& (!left_flaw && !right_flaw) ==> r == g
            &&& left_flaw && is_red(g.right) ==> r == RBNode {
                left: Some(Box::new(RBNode { color: Color::Black, ..*g.left.unwrap() })),
                right: Some(Box::new(RBNode { color: Color::Black, ..*g.right.unwrap() })),
                color: Color::Red,
                ..g
            }
            &&& right_flaw && is_red(g.left) ==> r == RBNode {
                left: Some(Box::new(RBNode { color: Color::Black, ..*g.left.unwrap() })),
                right: Some(Box::new(RBNode { color: Color::Black, ..*g.right.unwrap() })),
                color: Color::Red,
                ..g
            }
            &&& left_flaw && !is_red(g.right) && is_red(g.left.unwrap().left) ==> ({
                let p = *g.left.unwrap();
                r == RBNode {
                    right: Some(Box::new(RBNode { left: p.right, color: Color::Red, ..g })),
                    color: Color::Black,
                    ..p
                }
            })
            &&& left_flaw && !is_red(g.right) && !is_red(g.left.unwrap().left) ==> ({
                let p = *g.left.unwrap();
                let c = *p.right.unwrap();
                &&& p.color == Color::Red
                &&& r == RBNode {
                    left: Some(Box::new(RBNode { right: c.left, ..p })),
                    right: Some(Box::new(RBNode { left: c.right, color: Color::Red, ..g })),
                    color: Color::Black,
                    ..c
                }
            })
            &&& right_flaw && !is_red(g.left) && is_red(g.right.unwrap().right) ==> ({
                let p = *g.right.unwrap();
                r == RBNode {
                    left: Some(Box::new(RBNode { right: p.left, color: Color::Red, ..g })),
                    color: Color::Black,
                    ..p
                }
            })
            &&& right_flaw && !is_red(g.left) && !is_red(g.right.unwrap().right) ==> ({
                let p = *g.right.unwrap();
                let c = *p.left.unwrap();
                &&& p.color == Color::Red
                &&& r == RBNode {
                    right: Some(Box::new(RBNode { left: c.right, ..p })),
                    left: Some(Box::new(RBNode { right: c.left, color: Color::Red, ..g })),
                    color: Color::Black,
                    ..c
                }
            })
        }),
{
}

proof fn lemma_rb_pow2_monotone(a: nat, b: nat)
    requires
        a <= b,
    ensures
        pow2(a) <= pow2(b),
{
    if a < b {
        lemma_pow2_strictly_increases(a, b);
    }
}

/// In a valid subtree no path is more than twice as long as its count of
/// black nodes (plus one for a red root), and there are at least
/// 2^(black height) - 1 nodes.
pub proof fn lemma_rb_shape<T: Ord + Copy>(n: Option<Box<RBNode<T>>>)
    requires
        rb_valid(n),
    ensures
        tree_height::<T, RBNode<T>>(n) <= 2 * black_height(n) + if is_red(n) {
            1int
        } else {
            0int
        },
        pow2(black_height(n)) <= rb_size(n) + 1,
    decreases n,
{
    lemma2_to64();
    if let Some(b) = n {
        lemma_rb_shape::<T>(b.left);
        lemma_rb_shape::<T>(b.right);
        if b.color == Color::Black {
            lemma_pow2_unfold(black_height(n));
        } else {
            lemma_rb_pow2_monotone(black_height(n), black_height(n) + 1);
            lemma_pow2_unfold(black_height(n) + 1);
        }
    }
}

/// A red-black tree is balanced: its height is at most twice its black
/// height, and a tree of black height `b` holds at least 2^b - 1 values (one
/// per node), so a tree of height `h` holds at least 2^(h/2) - 1 values and
/// the height grows with the logarithm of their number.
pub proof fn lemma_rb_height_logarithmic<T: Ord + Copy>(t: &RedBlackTree<T>)
    requires
        t.wf(),
    ensures
        tree_height::<T, RBNode<T>>(t.root) <= 2 * black_height(t.root),
        t.values().finite(),
        t.values().len() == rb_size(t.root),
        pow2(black_height(t.root)) <= t.values().len() + 1,
        pow2(tree_height::<T, RBNode<T>>(t.root) / 2) <= t.values().len() + 1,
{
    lemma_rb_shape::<T>(t.root);
    lemma_rb_size_is_len::<T>(t.root);
    let h = tree_height::<T, RBNode<T>>(t.root);
    assert(h / 2 <= black_height(t.root));
    lemma_rb_pow2_monotone(h / 2, black_height(t.root));
}

/// A search tree holds as many values as it has nodes.
pub proof fn lemma_rb_size_is_len<T: Ord + Copy>(n: Option<Box<RBNode<T>>>)
    requires
        key_order::<T>(),
        rb_ordered(n),
    ensures
        rb_values(n).finite(),
        rb_values(n).len() == rb_size(n),
    decreases n,
{
    match n {
        None => {},
        Some(b) => {
            lemma_unfold::<T, RBNode<T>>(*b);
            lemma_rb_size_is_len::<T>(b.left);
            lemma_rb_size_is_len::<T>(b.right);
            lemma_bst_len::<T, RBNode<T>>(*b);
        },
    }
}

/// The repair after an insertion keeps the values of the subtree and the
/// search-tree order: it only recolours and rotates.
pub proof fn lemma_rb_rebalance_insert_order<T: Ord + Copy>(g: RBNode<T>)
    requires
        key_order::<T>(),
        rb_ordered(Some(Box::new(g))),
    ensures
        rb_values(Some(Box::new(rb_rebalance_insert(g)))) == rb_values(Some(Box::new(g))),
        rb_ordered(Some(Box::new(rb_rebalance_insert(g)))),
{
    let left_flaw = rb_red_conflict(g, true);
    let right_flaw = !left_flaw && rb_red_conflict(g, false);
    let res = rb_rebalance_insert(g);
    if !left_flaw && !right_flaw {
    } else if (left_flaw && is_red(g.right)) || (right_flaw && is_red(g.left)) {
        let l = *g.left.unwrap();
        let r = *g.right.unwrap();
        lemma_rb_congruent::<T>(rb_recolored(l), l);
        lemma_rb_congruent::<T>(rb_recolored(r), r);
        lemma_rb_congruent::<T>(res, g);
    } else {
        let rel = if left_flaw {
            if is_red(g.left.unwrap().left) {
                LocationRel::LL
            } else {
                LocationRel::LR
            }
        } else {
            if is_red(g.right.unwrap().right) {
                LocationRel::RR
            } else {
                LocationRel::RL
            }
        };
        lemma_rotation_preserves_order::<T, RBNode<T>>(g, rel);
        let t = rotated::<T, RBNode<T>>(g, rel);
        if left_flaw {
            let tr = *t.right.unwrap();
            lemma_rb_congruent::<T>(rb_recolored(tr), tr);
            let t2 = RBNode { right: Some(Box::new(rb_recolored(tr))), ..t };
            lemma_rb_congruent::<T>(t2, t);
            lemma_rb_congruent::<T>(rb_recolored(t2), t2);
        } else {
            let tl = *t.left.unwrap();
            lemma_rb_congruent::<T>(rb_recolored(tl), tl);
            let t2 = RBNode { left: Some(Box::new(rb_recolored(tl))), ..t };
            lemma_rb_congruent::<T>(t2, t);
            lemma_rb_congruent::<T>(rb_recolored(t2), t2);
        }
    }
}

/// The repair after an insertion, on a black grandparent, leaves a valid
/// subtree with the same values, order and black height; a red node is left
/// as it is.
pub proof fn lemma_rb_rebalance_insert<T: Ord + Copy>(g: RBNode<T>)
    requires
        key_order::<T>(),
        rb_ordered(Some(Box::new(g))),
        rb_valid(g.left) || red_flaw(g.left),
        rb_valid(g.right) || red_flaw(g.right),
        rb_valid(g.left) || rb_valid(g.right),
        black_height(g.left) == black_height(g.right),
        g.color == Color::Red ==> rb_valid(g.left) && rb_valid(g.right) && !(is_red(g.left)
            && is_red(g.right)),
    ensures
        rb_values(Some(Box::new(rb_rebalance_insert(g)))) == rb_values(Some(Box::new(g))),
        rb_ordered(Some(Box::new(rb_rebalance_insert(g)))),
        black_height(Some(Box::new(rb_rebalance_insert(g)))) == black_height(Some(Box::new(g))),
        g.color == Color::Black ==> rb_valid(Some(Box::new(rb_rebalance_insert(g)))),
        g.color == Color::Red ==> rb_rebalance_insert(g) == g,
{
    lemma_rb_rebalance_insert_order::<T>(g);
    let left_flaw = rb_red_conflict(g, true);
    let right_flaw = !left_flaw && rb_red_conflict(g, false);
    if g.left is Some {
        if red_flaw(g.left) && !left_flaw {
            assert(rb_valid(g.left));
        }
        if left_flaw {
            assert(!rb_valid(g.left));
        }
    }
    if g.right is Some {
        if red_flaw(g.right) && !right_flaw && !left_flaw {
            assert(rb_valid(g.right));
        }
        if right_flaw {
            assert(!rb_valid(g.right));
        }
    }
    let res = rb_rebalance_insert(g);
    if !left_flaw && !right_flaw {
    } else if (left_flaw && is_red(g.right)) || (right_flaw && is_red(g.left)) {
        let p0 = if left_flaw {
            *g.left.unwrap()
        } else {
            *g.right.unwrap()
        };
        let u0 = if left_flaw {
            *g.right.unwrap()
        } else {
            *g.left.unwrap()
        };
        let parent = rb_recolored(p0);
        let uncle = rb_recolored(u0);
        assert(rb_valid(Some(Box::new(u0))));
        assert(black_height(Some(Box::new(parent))) == black_height(p0.left) + 1);
        assert(black_height(Some(Box::new(uncle))) == black_height(u0.left) + 1);
        assert(rb_valid(Some(Box::new(parent))));
        assert(rb_valid(Some(Box::new(uncle))));
    } else {
        assert(g.color == Color::Black);
        if left_flaw {
            let p0 = *g.left.unwrap();
            assert(red_flaw(g.left));
            assert(!is_red(g.right));
            assert(rb_valid(g.right));
            assert(black_height(p0.left) == black_height(g.right));
            if is_red(p0.left) {
                let g2 = res.right.unwrap();
                assert(g2.left == p0.right && g2.right == g.right);
                assert(rb_valid(Some(g2)));
                assert(black_height(Some(g2)) == black_height(p0.right));
            } else {
                let x0 = *p0.right.unwrap();
                assert(rb_valid(p0.right));
                let p2 = res.left.unwrap();
                let g2 = res.right.unwrap();
                assert(p2.left == p0.left && p2.right == x0.left);
                assert(g2.left == x0.right && g2.right == g.right);
                assert(rb_valid(Some(p2)));
                assert(rb_valid(Some(g2)));
                assert(black_height(Some(p2)) == black_height(p0.left));
            }
        } else {
            let p0 = *g.right.unwrap();
            assert(red_flaw(g.right));
            assert(!is_red(g.left));
            assert(rb_valid(g.left));
            assert(black_height(p0.right) == black_height(g.left));
            if is_red(p0.right) {
                let g2 = res.left.unwrap();
                assert(g2.right == p0.left && g2.left == g.left);
                assert(rb_valid(Some(g2)));
                assert(black_height(Some(g2)) == black_height(p0.left));
            } else {
                let x0 = *p0.left.unwrap();
                assert(rb_valid(p0.left));
                let p2 = res.right.unwrap();
                let g2 = res.left.unwrap();
                assert(p2.right == p0.right && p2.left == x0.right);
                assert(g2.right == x0.left && g2.left == g.left);
                assert(rb_valid(Some(p2)));
                assert(rb_valid(Some(g2)));
                assert(black_height(Some(g2)) == black_height(g.left));
            }
        }
    }
}

/// Insertion into a valid subtree gives a search tree that holds the new
/// value besides the old ones, of the same black height; it is valid where
/// the subtree had a black root, and has at worst a red root with one red
/// child where the root was red. A value that is already there leaves the
/// subtree as it is.
pub proof fn lemma_rb_insert_node<T: Ord + Copy>(node: Option<Box<RBNode<T>>>, value: T)
    requires
        key_order::<T>(),
        rb_valid(node),
        rb_ordered(node),
    ensures
        ({
            let r = rb_insert_node(node, value);
            &&& rb_ordered(r.0)
            &&& rb_values(r.0) == rb_values(node).insert(value)
            &&& r.1 == !rb_values(node).contains(value)
            &&& !r.1 ==> r.0 == node
            &&& r.0 is Some
            &&& black_height(r.0) == black_height(node)
            &&& !is_red(node) ==> rb_valid(r.0)
            &&& is_red(node) ==> red_flaw(r.0)
        }),
    decreases node,
{
    lemma_key_order::<T>();
    match node {
        None => {
            let leaf = RBNode { value, color: Color::Red, left: None, right: None };
            lemma_unfold::<T, RBNode<T>>(leaf);
            assert(rb_values(Some(Box::new(leaf))) =~= Set::<T>::empty().insert(value));
        },
        Some(n) => {
            lemma_unfold::<T, RBNode<T>>(*n);
            if n.value == value {
                assert(rb_values(node).insert(value) =~= rb_values(node));
            } else if lt(value, n.value) {
                lemma_rb_insert_node(n.left, value);
                let (l, inserted) = rb_insert_node(n.left, value);
                if !inserted {
                    assert(rb_values(node).insert(value) =~= rb_values(node));
                } else {
                    let m = RBNode { left: l, ..*n };
                    lemma_unfold::<T, RBNode<T>>(m);
                    assert(rb_values(Some(Box::new(m))) =~= rb_values(node).insert(value));
                    lemma_rb_rebalance_insert::<T>(m);
                }
            } else {
                lemma_rb_insert_node(n.right, value);
                let (rc, inserted) = rb_insert_node(n.right, value);
                if !inserted {
                    assert(rb_values(node).insert(value) =~= rb_values(node));
                } else {
                    let m = RBNode { right: rc, ..*n };
                    lemma_unfold::<T, RBNode<T>>(m);
                    assert(rb_values(Some(Box::new(m))) =~= rb_values(node).insert(value));
                    lemma_rb_rebalance_insert::<T>(m);
                }
            }
        },
    }
}

/// Inserting a value that a search tree already holds changes nothing and
/// reports nothing new.
pub proof fn lemma_rb_insert_present<T: Ord + Copy>(node: Option<Box<RBNode<T>>>, value: T)
    requires
        key_order::<T>(),
        rb_ordered(node),
        rb_values(node).contains(value),
    ensures
        rb_insert_node(node, value) == (node, false),
    decreases node,
{
    lemma_key_order::<T>();
    let n = node.unwrap();
    lemma_unfold::<T, RBNode<T>>(*n);
    if n.value != value {
        if lt(value, n.value) {
            if rb_values(n.right).contains(value) {
                assert(lt(n.value, value));
            }
            lemma_rb_insert_present(n.left, value);
        } else {
            if rb_values(n.left).contains(value) {
                assert(lt(value, n.value));
            }
            lemma_rb_insert_present(n.right, value);
        }
    }
}

/// Inserting the same value twice: the second insertion leaves the tree
/// exactly as the first one left it, and reports that the value was
/// already there.
pub proof fn lemma_rb_insert_twice<T: Ord + Copy>(t: RedBlackTree<T>, value: T)
    requires
        t.wf(),
    ensures
        ({
            let once = rb_insert_tree(t.root, value);
            &&& rb_insert_node(once, value) == (once, false)
            &&& rb_insert_tree(once, value) == once
        }),
{
    lemma_rb_insert_node::<T>(t.root, value);
    let (r, inserted) = rb_insert_node(t.root, value);
    if inserted && is_red(r) {
        lemma_rb_congruent::<T>(rb_painted(*r.unwrap(), Color::Black), *r.unwrap());
    }
    lemma_rb_insert_present::<T>(rb_insert_tree(t.root, value), value);
}

/// Cases 2 to 4 of the repair after a deletion keep the values of the
/// subtree and the search-tree order: they only recolour and rotate.
proof fn lemma_rb_fix_deficit_order<T: Ord + Copy>(n: RBNode<T>, x_is_left: bool)
    requires
        key_order::<T>(),
        rb_ordered(Some(Box::new(n))),
        x_is_left ==> n.right is Some,
        !x_is_left ==> n.left is Some,
    ensures
        rb_values(Some(Box::new(rb_fix_deficit(n, x_is_left).0))) == rb_values(Some(Box::new(n))),
        rb_ordered(Some(Box::new(rb_fix_deficit(n, x_is_left).0))),
{
    lemma_unfold::<T, RBNode<T>>(n);
    if x_is_left {
        let w = *n.right.unwrap();
        lemma_unfold::<T, RBNode<T>>(w);
        let w_left_black = !is_red(w.left);
        let w_right_black = !is_red(w.right);
        if w_left_black && w_right_black {
            let n2 = RBNode { right: Some(Box::new(rb_painted(w, Color::Red))), ..n };
            lemma_rb_congruent::<T>(rb_painted(w, Color::Red), w);
            lemma_rb_congruent::<T>(n2, n);
            lemma_rb_congruent::<T>(rb_painted(n2, Color::Black), n2);
        } else {
            let w1 = RBNode {
                left: Some(Box::new(rb_painted(*w.left.unwrap(), Color::Black))),
                color: Color::Red,
                ..w
            };
            let n3 = if w_right_black {
                RBNode { right: Some(Box::new(rb_right_rotate(w1))), ..n }
            } else {
                n
            };
            if w_right_black {
                let wl = *w.left.unwrap();
                lemma_rb_congruent::<T>(rb_painted(wl, Color::Black), wl);
                lemma_rb_congruent::<T>(w1, w);
                lemma_rotation_preserves_order::<T, RBNode<T>>(w1, LocationRel::LL);
                assert(rb_right_rotate(w1) == rotated::<T, RBNode<T>>(w1, LocationRel::LL));
                lemma_rb_congruent::<T>(n3, n);
            }
            let w4 = *n3.right.unwrap();
            lemma_unfold::<T, RBNode<T>>(n3);
            lemma_unfold::<T, RBNode<T>>(w4);
            let w4r = *w4.right.unwrap();
            let w5 = RBNode {
                color: n3.color,
                right: Some(Box::new(rb_painted(w4r, Color::Black))),
                ..w4
            };
            lemma_rb_congruent::<T>(rb_painted(w4r, Color::Black), w4r);
            lemma_rb_congruent::<T>(w5, w4);
            let m = RBNode { right: Some(Box::new(w5)), color: Color::Black, ..n3 };
            lemma_rb_congruent::<T>(m, n3);
            lemma_rotation_preserves_order::<T, RBNode<T>>(m, LocationRel::RR);
            assert(rb_left_rotate(m) == rotated::<T, RBNode<T>>(m, LocationRel::RR));
        }
    } else {
        let w = *n.left.unwrap();
        lemma_unfold::<T, RBNode<T>>(w);
        let w_left_black = !is_red(w.left);
        let w_right_black = !is_red(w.right);
        if w_left_black && w_right_black {
            let n2 = RBNode { left: Some(Box::new(rb_painted(w, Color::Red))), ..n };
            lemma_rb_congruent::<T>(rb_painted(w, Color::Red), w);
            lemma_rb_congruent::<T>(n2, n);
            lemma_rb_congruent::<T>(rb_painted(n2, Color::Black), n2);
        } else {
            let w1 = RBNode {
                right: Some(Box::new(rb_painted(*w.right.unwrap(), Color::Black))),
                color: Color::Red,
                ..w
            };
            let n3 = if w_left_black {
                RBNode { left: Some(Box::new(rb_left_rotate(w1))), ..n }
            } else {
                n
            };
            if w_left_black {
                let wr = *w.right.unwrap();
                lemma_rb_congruent::<T>(rb_painted(wr, Color::Black), wr);
                lemma_rb_congruent::<T>(w1, w);
                lemma_rotation_preserves_order::<T, RBNode<T>>(w1, LocationRel::RR);
                assert(rb_left_rotate(w1) == rotated::<T, RBNode<T>>(w1, LocationRel::RR));
                lemma_rb_congruent::<T>(n3, n);
            }
            let w4 = *n3.left.unwrap();
            lemma_unfold::<T, RBNode<T>>(n3);
            lemma_unfold::<T, RBNode<T>>(w4);
            let w4l = *w4.left.unwrap();
            let w5 = RBNode {
                color: n3.color,
                left: Some(Box::new(rb_painted(w4l, Color::Black))),
                ..w4
            };
            lemma_rb_congruent::<T>(rb_painted(w4l, Color::Black), w4l);
            lemma_rb_congruent::<T>(w5, w4);
            let m = RBNode { left: Some(Box::new(w5)), color: Color::Black, ..n3 };
            lemma_rb_congruent::<T>(m, n3);
            lemma_rotation_preserves_order::<T, RBNode<T>>(m, LocationRel::LL);
            assert(rb_right_rotate(m) == rotated::<T, RBNode<T>>(m, LocationRel::LL));
        }
    }
}

/// Cases 2 to 4 of the repair after a deletion, at `n` whose child `x` on
/// the side of `x_is_left` is black and lacks one black node while the
/// sibling is black: the result is a valid subtree with the same values and
/// order. Either the lack is made up (the black height is that of the
/// sibling, plus one for a black `n`, and a red result comes from a red
/// `n`), or, in case 2 with a black `n`, it passes up with a black root.
pub proof fn lemma_rb_fix_deficit<T: Ord + Copy>(n: RBNode<T>, x_is_left: bool)
    requires
        key_order::<T>(),
        rb_ordered(Some(Box::new(n))),
        rb_valid(n.left),
        rb_valid(n.right),
        x_is_left ==> black_height(n.left) + 1 == black_height(n.right) && !is_red(n.left)
            && !is_red(n.right),
        !x_is_left ==> black_height(n.right) + 1 == black_height(n.left) && !is_red(n.right)
            && !is_red(n.left),
    ensures
        ({
            let (r, short) = rb_fix_deficit(n, x_is_left);
            let target = (if x_is_left {
                black_height(n.right)
            } else {
                black_height(n.left)
            }) + if n.color == Color::Black {
                1int
            } else {
                0int
            };
            &&& rb_values(Some(Box::new(r))) == rb_values(Some(Box::new(n)))
            &&& rb_ordered(Some(Box::new(r)))
            &&& rb_valid(Some(Box::new(r)))
            &&& !short ==> black_height(Some(Box::new(r))) == target && (r.color == Color::Red
                ==> n.color == Color::Red)
            &&& short ==> black_height(Some(Box::new(r))) + 1 == target && n.color == Color::Black
                && r.color == Color::Black
        }),
{
    if x_is_left {
        assert(n.right is Some);
    } else {
        assert(n.left is Some);
    }
    lemma_rb_fix_deficit_order::<T>(n, x_is_left);
    if x_is_left {
        let w0 = *n.right.unwrap();
        assert(rb_valid(n.right));
        if !is_red(w0.left) && !is_red(w0.right) {
            let wp = RBNode { color: Color::Red, ..w0 };
            assert(rb_valid(Some(Box::new(wp))));
            assert(black_height(Some(Box::new(wp))) == black_height(w0.left));
            assert(black_height(n.right) == black_height(w0.left) + 1);
        } else {
            let n4 = if !is_red(w0.right) {
                assert(rb_valid(w0.left));
                let wl = *w0.left.unwrap();
                assert(!is_red(wl.left) && !is_red(wl.right));
                assert(black_height(wl.left) == black_height(w0.right));
                assert(black_height(wl.right) == black_height(w0.right));
                let rnode = RBNode { left: wl.right, color: Color::Red, ..w0 };
                assert(rb_valid(Some(Box::new(rnode))));
                assert(black_height(Some(Box::new(rnode))) == black_height(wl.right));
                let w1 = RBNode {
                    left: Some(Box::new(rb_painted(wl, Color::Black))),
                    color: Color::Red,
                    ..w0
                };
                let rot = rb_right_rotate(w1);
                assert(rot.right == Some(Box::new(rnode)));
                assert(rot.left == wl.left);
                assert(rb_valid(Some(Box::new(rot))));
                RBNode { right: Some(Box::new(rot)), ..n }
            } else {
                n
            };
            let w4 = *n4.right.unwrap();
            assert(w4.color == Color::Black);
            assert(is_red(w4.right));
            assert(rb_valid(n4.right));
            assert(black_height(n4.left) + 1 == black_height(n4.right));
            assert(black_height(w4.left) == black_height(n4.left));
            let wr = *w4.right.unwrap();
            assert(rb_valid(w4.right));
            assert(rb_valid(Some(Box::new(RBNode { color: Color::Black, ..wr }))));
            let nl = RBNode { right: w4.left, color: Color::Black, ..n4 };
            assert(rb_valid(Some(Box::new(nl))));
            assert(black_height(Some(Box::new(nl))) == black_height(n4.left) + 1);
            let wrb = RBNode { color: Color::Black, ..wr };
            assert(black_height(Some(Box::new(wrb))) == black_height(wr.left) + 1);
            assert(black_height(wr.left) == black_height(n4.left));
            let top = rb_fix_deficit(n, x_is_left).0;
            assert(top.left == Some(Box::new(nl)));
            assert(top.right == Some(Box::new(wrb)));
            assert(rb_valid(Some(Box::new(top))));
        }
    } else {
        let w0 = *n.left.unwrap();
        assert(rb_valid(n.left));
        if !is_red(w0.left) && !is_red(w0.right) {
            let wp = RBNode { color: Color::Red, ..w0 };
            assert(rb_valid(Some(Box::new(wp))));
            assert(black_height(Some(Box::new(wp))) == black_height(w0.left));
            assert(black_height(n.left) == black_height(w0.left) + 1);
        } else {
            let n4 = if !is_red(w0.left) {
                assert(rb_valid(w0.right));
                let wr = *w0.right.unwrap();
                assert(!is_red(wr.left) && !is_red(wr.right));
                assert(black_height(wr.left) == black_height(w0.left));
                assert(black_height(wr.right) == black_height(w0.left));
                let lnode = RBNode { right: wr.left, color: Color::Red, ..w0 };
                assert(rb_valid(Some(Box::new(lnode))));
                assert(black_height(Some(Box::new(lnode))) == black_height(wr.left));
                let w1 = RBNode {
                    right: Some(Box::new(rb_painted(wr, Color::Black))),
                    color: Color::Red,
                    ..w0
                };
                let rot = rb_left_rotate(w1);
                assert(rot.left == Some(Box::new(lnode)));
                assert(rot.right == wr.right);
                assert(rb_valid(Some(Box::new(rot))));
                RBNode { left: Some(Box::new(rot)), ..n }
            } else {
                n
            };
            let w4 = *n4.left.unwrap();
            assert(w4.color == Color::Black);
            assert(is_red(w4.left));
            assert(rb_valid(n4.left));
            assert(black_height(n4.right) + 1 == black_height(n4.left));
            assert(black_height(w4.right) == black_height(n4.right));
            let wl = *w4.left.unwrap();
            assert(rb_valid(w4.left));
            assert(rb_valid(Some(Box::new(RBNode { color: Color::Black, ..wl }))));
            let nr = RBNode { left: w4.right, color: Color::Black, ..n4 };
            assert(rb_valid(Some(Box::new(nr))));
            assert(black_height(Some(Box::new(nr))) == black_height(n4.right) + 1);
            let wlb = RBNode { color: Color::Black, ..wl };
            assert(black_height(Some(Box::new(wlb))) == black_height(wl.left) + 1);
            assert(black_height(wl.left) == black_height(n4.right));
            let top = rb_fix_deficit(n, x_is_left).0;
            assert(top.right == Some(Box::new(nr)));
            assert(top.left == Some(Box::new(wlb)));
            assert(rb_valid(Some(Box::new(top))));
        }
    }
}

/// The repair after a deletion keeps the values of the subtree and the
/// search-tree order, where the sibling of the short side is there (and,
/// when it is red, its child towards the short side too).
proof fn lemma_rb_rebalance_delete_order<T: Ord + Copy>(n: RBNode<T>, x_is_left: bool)
    requires
        key_order::<T>(),
        rb_ordered(Some(Box::new(n))),
        x_is_left ==> n.right is Some && (is_red(n.right) ==> n.right.unwrap().left is Some),
        !x_is_left ==> n.left is Some && (is_red(n.left) ==> n.left.unwrap().right is Some),
    ensures
        rb_values(Some(Box::new(rb_rebalance_delete(n, x_is_left).0))) == rb_values(
            Some(Box::new(n)),
        ),
        rb_ordered(Some(Box::new(rb_rebalance_delete(n, x_is_left).0))),
{
    lemma_unfold::<T, RBNode<T>>(n);
    if x_is_left {
        if is_red(n.left) {
            let l = *n.left.unwrap();
            lemma_rb_congruent::<T>(rb_painted(l, Color::Black), l);
            lemma_rb_congruent::<T>(rb_rebalance_delete(n, x_is_left).0, n);
        } else if is_red(n.right) {
            let w = *n.right.unwrap();
            let n1 = RBNode {
                right: Some(Box::new(rb_painted(w, Color::Black))),
                color: Color::Red,
                ..n
            };
            lemma_rb_congruent::<T>(rb_painted(w, Color::Black), w);
            lemma_rb_congruent::<T>(n1, n);
            lemma_rotation_preserves_order::<T, RBNode<T>>(n1, LocationRel::RR);
            let top = rb_left_rotate(n1);
            assert(top == rotated::<T, RBNode<T>>(n1, LocationRel::RR));
            lemma_unfold::<T, RBNode<T>>(top);
            lemma_rb_fix_deficit_order::<T>(*top.left.unwrap(), true);
            let fixed = rb_fix_deficit(*top.left.unwrap(), true).0;
            lemma_rb_congruent::<T>(RBNode { left: Some(Box::new(fixed)), ..top }, top);
        } else {
            lemma_rb_fix_deficit_order::<T>(n, true);
        }
    } else {
        if is_red(n.right) {
            let r = *n.right.unwrap();
            lemma_rb_congruent::<T>(rb_painted(r, Color::Black), r);
            lemma_rb_congruent::<T>(rb_rebalance_delete(n, x_is_left).0, n);
        } else if is_red(n.left) {
            let w = *n.left.unwrap();
            let n1 = RBNode {
                left: Some(Box::new(rb_painted(w, Color::Black))),
                color: Color::Red,
                ..n
            };
            lemma_rb_congruent::<T>(rb_painted(w, Color::Black), w);
            lemma_rb_congruent::<T>(n1, n);
            lemma_rotation_preserves_order::<T, RBNode<T>>(n1, LocationRel::LL);
            let top = rb_right_rotate(n1);
            assert(top == rotated::<T, RBNode<T>>(n1, LocationRel::LL));
            lemma_unfold::<T, RBNode<T>>(top);
            lemma_rb_fix_deficit_order::<T>(*top.right.unwrap(), false);
            let fixed = rb_fix_deficit(*top.right.unwrap(), false).0;
            lemma_rb_congruent::<T>(RBNode { right: Some(Box::new(fixed)), ..top }, top);
        } else {
            lemma_rb_fix_deficit_order::<T>(n, false);
        }
    }
}

/// The repair after a deletion, at `n` whose child `x` on the side of
/// `x_is_left` lacks one black node: the result is a valid subtree with the
/// same values and order. A red `x` is painted black, which makes up the
/// lack; a red sibling is rotated over `n` first (case 1). Either the lack
/// is made up (the black height is that of the sibling, plus one for a
/// black `n`, and a red result comes from a red `n`), or it passes up with
/// a black root.
pub proof fn lemma_rb_rebalance_delete<T: Ord + Copy>(n: RBNode<T>, x_is_left: bool)
    requires
        key_order::<T>(),
        rb_ordered(Some(Box::new(n))),
        rb_valid(n.left),
        rb_valid(n.right),
        x_is_left ==> black_height(n.left) + 1 == black_height(n.right) && (n.color
            == Color::Red ==> !is_red(n.right)),
        !x_is_left ==> black_height(n.right) + 1 == black_height(n.left) && (n.color
            == Color::Red ==> !is_red(n.left)),
    ensures
        ({
            let (r, short) = rb_rebalance_delete(n, x_is_left);
            let target = (if x_is_left {
                black_height(n.right)
            } else {
                black_height(n.left)
            }) + if n.color == Color::Black {
                1int
            } else {
                0int
            };
            &&& rb_values(Some(Box::new(r))) == rb_values(Some(Box::new(n)))
            &&& rb_ordered(Some(Box::new(r)))
            &&& rb_valid(Some(Box::new(r)))
            &&& !short ==> black_height(Some(Box::new(r))) == target && (r.color == Color::Red
                ==> n.color == Color::Red)
            &&& short ==> black_height(Some(Box::new(r))) + 1 == target && n.color == Color::Black
                && r.color == Color::Black
        }),
{
    if x_is_left {
        assert(n.right is Some);
        if is_red(n.right) {
            assert(rb_valid(n.right));
            assert(black_height(n.right.unwrap().left) >= 1);
        }
        lemma_rb_rebalance_delete_order::<T>(n, true);
        if is_red(n.left) {
            let x0 = *n.left.unwrap();
            assert(rb_valid(Some(Box::new(RBNode { color: Color::Black, ..x0 }))));
            assert(black_height(Some(Box::new(RBNode { color: Color::Black, ..x0 })))
                == black_height(n.left) + 1);
        } else if is_red(n.right) {
            let w0 = *n.right.unwrap();
            assert(!is_red(w0.left));
            let n1 = RBNode {
                right: Some(Box::new(rb_painted(w0, Color::Black))),
                color: Color::Red,
                ..n
            };
            lemma_rb_congruent::<T>(rb_painted(w0, Color::Black), w0);
            lemma_rb_congruent::<T>(n1, n);
            lemma_rotation_preserves_order::<T, RBNode<T>>(n1, LocationRel::RR);
            let top = rb_left_rotate(n1);
            assert(top == rotated::<T, RBNode<T>>(n1, LocationRel::RR));
            lemma_unfold::<T, RBNode<T>>(top);
            let inner = *top.left.unwrap();
            assert(inner.right == w0.left);
            lemma_rb_fix_deficit::<T>(inner, true);
        } else {
            lemma_rb_fix_deficit::<T>(n, true);
        }
    } else {
        assert(n.left is Some);
        if is_red(n.left) {
            assert(rb_valid(n.left));
            assert(black_height(n.left.unwrap().right) >= 1);
        }
        lemma_rb_rebalance_delete_order::<T>(n, false);
        if is_red(n.right) {
            let x0 = *n.right.unwrap();
            assert(rb_valid(Some(Box::new(RBNode { color: Color::Black, ..x0 }))));
            assert(black_height(Some(Box::new(RBNode { color: Color::Black, ..x0 })))
                == black_height(n.right) + 1);
        } else if is_red(n.left) {
            let w0 = *n.left.unwrap();
            assert(!is_red(w0.right));
            let n1 = RBNode {
                left: Some(Box::new(rb_painted(w0, Color::Black))),
                color: Color::Red,
                ..n
            };
            lemma_rb_congruent::<T>(rb_painted(w0, Color::Black), w0);
            lemma_rb_congruent::<T>(n1, n);
            lemma_rotation_preserves_order::<T, RBNode<T>>(n1, LocationRel::LL);
            let top = rb_right_rotate(n1);
            assert(top == rotated::<T, RBNode<T>>(n1, LocationRel::LL));
            lemma_unfold::<T, RBNode<T>>(top);
            let inner = *top.right.unwrap();
            assert(inner.left == w0.right);
            lemma_rb_fix_deficit::<T>(inner, false);
        } else {
            lemma_rb_fix_deficit::<T>(n, false);
        }
    }
}

/// Removing the largest value of a valid subtree leaves a valid subtree
/// with the other values; the value removed is the largest one. Either the
/// black height stays (and a red root comes from a red root), or the
/// subtree comes out one black node short.
pub proof fn lemma_rb_delete_max<T: Ord + Copy>(n: RBNode<T>)
    requires
        key_order::<T>(),
        rb_valid(Some(Box::new(n))),
        rb_ordered(Some(Box::new(n))),
    ensures
        ({
            let r = rb_delete_max(n);
            &&& rb_ordered(r.0)
            &&& rb_valid(r.0)
            &&& rb_values(Some(Box::new(n))).contains(r.1)
            &&& rb_values(r.0) == rb_values(Some(Box::new(n))).remove(r.1)
            &&& forall|x: T| #[trigger]
                rb_values(Some(Box::new(n))).contains(x) ==> x == r.1 || lt(x, r.1)
            &&& r.2 ==> black_height(r.0) + 1 == black_height(Some(Box::new(n)))
            &&& !r.2 ==> black_height(r.0) == black_height(Some(Box::new(n))) && (is_red(r.0)
                ==> n.color == Color::Red)
        }),
    decreases n,
{
    lemma_key_order::<T>();
    lemma_unfold::<T, RBNode<T>>(n);
    match n.right {
        None => {
            assert(rb_values(n.left) =~= rb_values(Some(Box::new(n))).remove(n.value));
        },
        Some(right) => {
            lemma_rb_delete_max::<T>(*right);
            let (rest, max, short) = rb_delete_max(*right);
            let n2 = RBNode { right: rest, ..n };
            lemma_unfold::<T, RBNode<T>>(n2);
            assert(rb_values(n.right).contains(max));
            assert(rb_values(Some(Box::new(n2))) =~= rb_values(Some(Box::new(n))).remove(max));
            assert forall|x: T| #[trigger]
                rb_values(Some(Box::new(n))).contains(x) implies x == max || lt(x, max) by {
                if rb_values(n.left).contains(x) {
                    assert(lt(x, n.value));
                }
            }
            if short {
                lemma_rb_rebalance_delete::<T>(n2, false);
            }
        },
    }
}

/// Deletion from a valid subtree leaves a valid subtree with the old values
/// but the one deleted. Either the black height stays (and a red root comes
/// from a red root), or the value was there and the subtree comes out one
/// black node short; an absent value leaves the subtree as it is.
pub proof fn lemma_rb_delete_node<T: Ord + Copy>(node: Option<Box<RBNode<T>>>, value: T)
    requires
        key_order::<T>(),
        rb_valid(node),
        rb_ordered(node),
    ensures
        ({
            let r = rb_delete_node(node, value);
            &&& rb_ordered(r.0)
            &&& rb_valid(r.0)
            &&& rb_values(r.0) == rb_values(node).remove(value)
            &&& r.1 == rb_values(node).contains(value)
            &&& !r.1 ==> r.0 == node && !r.2
            &&& r.2 ==> black_height(r.0) + 1 == black_height(node)
            &&& !r.2 ==> black_height(r.0) == black_height(node) && (is_red(r.0) ==> is_red(node))
        }),
    decreases node,
{
    lemma_key_order::<T>();
    match node {
        None => {
            assert(rb_values(node).remove(value) =~= rb_values(node));
        },
        Some(z) => {
            lemma_unfold::<T, RBNode<T>>(*z);
            if z.value == value {
                lemma_rb_delete_here::<T>(*z);
            } else if lt(value, z.value) {
                lemma_rb_delete_node(z.left, value);
                let (l, deleted, short) = rb_delete_node(z.left, value);
                let z2 = RBNode { left: l, ..*z };
                lemma_unfold::<T, RBNode<T>>(z2);
                if rb_values(z.right).contains(value) {
                    assert(lt(z.value, value));
                }
                assert(rb_values(Some(Box::new(z2))) =~= rb_values(node).remove(value));
                if short {
                    lemma_rb_rebalance_delete::<T>(z2, true);
                }
            } else {
                lemma_rb_delete_node(z.right, value);
                let (rc, deleted, short) = rb_delete_node(z.right, value);
                let z2 = RBNode { right: rc, ..*z };
                lemma_unfold::<T, RBNode<T>>(z2);
                if rb_values(z.left).contains(value) {
                    assert(lt(value, z.value));
                }
                assert(rb_values(Some(Box::new(z2))) =~= rb_values(node).remove(value));
                if short {
                    lemma_rb_rebalance_delete::<T>(z2, false);
                }
            }
        },
    }
}

/// Deletion at the node that holds the value: its only child, or, with two
/// children, the node with the in-order predecessor's value in its place.
proof fn lemma_rb_delete_here<T: Ord + Copy>(z: RBNode<T>)
    requires
        key_order::<T>(),
        rb_valid(Some(Box::new(z))),
        rb_ordered(Some(Box::new(z))),
    ensures
        ({
            let node = Some(Box::new(z));
            let r = rb_delete_node(node, z.value);
            &&& rb_ordered(r.0)
            &&& rb_valid(r.0)
            &&& rb_values(r.0) == rb_values(node).remove(z.value)
            &&& r.1
            &&& r.2 ==> black_height(r.0) + 1 == black_height(node)
            &&& !r.2 ==> black_height(r.0) == black_height(node) && (is_red(r.0) ==> is_red(node))
        }),
{
    lemma_key_order::<T>();
    lemma_unfold::<T, RBNode<T>>(z);
    let node = Some(Box::new(z));
    let value = z.value;
    if z.left is None {
        assert(rb_values(z.right) =~= rb_values(node).remove(value));
    } else if z.right is None {
        assert(rb_values(z.left) =~= rb_values(node).remove(value));
    } else {
        lemma_rb_delete_max::<T>(*z.left.unwrap());
        let (rest, pred, short) = rb_delete_max(*z.left.unwrap());
        let z2 = RBNode { left: rest, value: pred, ..z };
        lemma_unfold::<T, RBNode<T>>(z2);
        assert(rb_values(Some(Box::new(z2))) =~= rb_values(node).remove(value));
        assert forall|x: T| #[trigger] rb_values(z.right).contains(x) implies lt(pred, x) by {
            assert(lt(value, x));
        }
        if short {
            lemma_rb_rebalance_delete::<T>(z2, true);
        }
    }
}

/// Deleting a value that was just inserted into a tree that did not hold it
/// gives back a valid red-black tree with the values the tree had before.
pub proof fn lemma_rb_insert_then_delete<T: Ord + Copy>(t: RedBlackTree<T>, value: T)
    requires
        t.wf(),
        !t.values().contains(value),
    ensures
        ({
            let after = rb_delete_tree(rb_insert_tree(t.root, value), value);
            &&& rb_ordered(after)
            &&& rb_valid(after)
            &&& !is_red(after)
            &&& rb_values(after) == t.values()
        }),
{
    lemma_rb_insert_node::<T>(t.root, value);
    let r = rb_insert_node(t.root, value).0;
    let top = *r.unwrap();
    lemma_rb_congruent::<T>(rb_painted(top, Color::Black), top);
    let once = rb_insert_tree(t.root, value);
    assert(rb_valid(once));
    lemma_rb_delete_node::<T>(once, value);
    let d = rb_delete_node(once, value).0;
    if is_red(d) {
        lemma_rb_congruent::<T>(rb_painted(*d.unwrap(), Color::Black), *d.unwrap());
    }
    assert(t.values().insert(value).remove(value) =~= t.values());
}

impl<T: Ord + Copy> Default for RedBlackTree<T> {
    /// An empty tree.
    fn default() -> (r: Self)
        ensures
            r.root is None,
    {
        RedBlackTree { root: None }
    }
}

impl<T: Ord + Copy> RedBlackTree<T> {
    /// The tree is a valid red-black search tree over a totally ordered key
    /// type, with a black root.
    pub open spec fn wf(&self) -> bool {
        &&& key_order::<T>()
        &&& rb_valid(self.root)
        &&& !is_red(self.root)
        &&& rb_ordered(self.root)
    }

    /// The values held by the tree.
    pub open spec fn values(&self) -> Set<T> {
        rb_values(self.root)
    }

    pub fn new() -> (r: Self)
        requires
            key_order::<T>(),
        ensures
            r.wf(),
            r.root is None,
            r.values() == Set::<T>::empty(),
    {
        Self { root: None }
    }

    /// Whether `key` is held by the tree.
    pub fn contains(&self, key: T) -> (r: bool)
        requires
            self.wf(),
        ensures
            r == self.values().contains(key),
    {
        let mut cur: &Option<Box<RBNode<T>>> = &self.root;
        loop
            invariant
                key_order::<T>(),
                rb_ordered(*cur),
                rb_values(self.root).contains(key) == rb_values(*cur).contains(key),
            decreases rb_size(*cur),
        {
            match cur {
                None => {
                    return false;
                },
                Some(nb) => {
                    proof {
                        lemma_key_order::<T>();
                        lemma_unfold::<T, RBNode<T>>(**nb);
                    }
                    if less(&key, &nb.value) {
                        cur = &nb.left;
                    } else if less(&nb.value, &key) {
                        cur = &nb.right;
                    } else {
                        return true;
                    }
                },
            }
        }
    }

    /// The colour of a subtree's root; a missing subtree counts as black.
    fn node_color(node: &Option<Box<RBNode<T>>>) -> (r: Color)
        ensures
            (r == Color::Red) == is_red(*node),
    {
        match node {
            Some(rc) => rc.color,
            None => Color::Black,
        }
    }

    /// Flips the colour of `n`.
    fn recolor(n: &mut RBNode<T>)
        ensures
            *final(n) == rb_recolored(*old(n)),
    {
        let current_color = n.color;
        let new_color = match current_color {
            Color::Black => Color::Red,
            Color::Red => Color::Black,
        };
        n.color = new_color;
    }

    /// Repairs a red child with a red child below the black node `g`,
    /// where an insertion left it. A red uncle is recoloured together with
    /// the parent and `g`, which passes the question one level up; a black
    /// uncle is resolved by a rotation and recolouring.
    fn rebalance_insert(g: Box<RBNode<T>>) -> (r: Box<RBNode<T>>)
        requires
            key_order::<T>(),
            rb_ordered(Some(g)),
            rb_valid(g.left) || red_flaw(g.left),
            rb_valid(g.right) || red_flaw(g.right),
            rb_valid(g.left) || rb_valid(g.right),
            black_height(g.left) == black_height(g.right),
            g.color == Color::Red ==> rb_valid(g.left) && rb_valid(g.right) && !(is_red(g.left)
                && is_red(g.right)),
        ensures
            *r == rb_rebalance_insert(*g),
            rb_values(Some(r)) == rb_values(Some(g)),
            rb_ordered(Some(r)),
            black_height(Some(r)) == black_height(Some(g)),
            g.color == Color::Black ==> rb_valid(Some(r)),
            g.color == Color::Red ==> r == g,
    {
        proof {
            lemma_rb_rebalance_insert::<T>(*g);
        }
        let mut g = g;
        let left_flaw = Self::node_color(&g.left) == Color::Red && (Self::node_color(
            &g.left.as_ref().unwrap().left,
        ) == Color::Red || Self::node_color(&g.left.as_ref().unwrap().right) == Color::Red);
        let right_flaw = !left_flaw && Self::node_color(&g.right) == Color::Red && (
        Self::node_color(&g.right.as_ref().unwrap().left) == Color::Red || Self::node_color(
            &g.right.as_ref().unwrap().right,
        ) == Color::Red);
        if !left_flaw && !right_flaw {
            return g;
        }
        let uncle_is_red = if left_flaw {
            Self::node_color(&g.right) == Color::Red
        } else {
            Self::node_color(&g.left) == Color::Red
        };
        if uncle_is_red {
            // red uncle: recolour grandparent, parent and uncle
            Self::recolor(&mut *g);
            let mut parent = if left_flaw {
                g.left.take().unwrap()
            } else {
                g.right.take().unwrap()
            };
            let mut uncle = if left_flaw {
                g.right.take().unwrap()
            } else {
                g.left.take().unwrap()
            };
            Self::recolor(&mut *parent);
            Self::recolor(&mut *uncle);
            if left_flaw {
                g.left = Some(parent);
                g.right = Some(uncle);
            } else {
                g.right = Some(parent);
                g.left = Some(uncle);
            }
            return g;
        }
        // black uncle: rotate and recolour
        let path = if left_flaw {
            if Self::node_color(&g.left.as_ref().unwrap().left) == Color::Red {
                vec![Dir::Left, Dir::Left]
            } else {
                vec![Dir::Left, Dir::Right]
            }
        } else {
            if Self::node_color(&g.right.as_ref().unwrap().right) == Color::Red {
                vec![Dir::Right, Dir::Right]
            } else {
                vec![Dir::Right, Dir::Left]
            }
        };
        let location_rel = find_location_rel(&path).unwrap();
        proof {
            assert(path@.subrange(0, 0) == Seq::<Dir>::empty());
            lemma_subtree_at_two::<T, RBNode<T>>(*g, path@[0], path@[1]);
            lemma_rotation_preserves_order::<T, RBNode<T>>(*g, location_rel);
        }
        let mut sub = Some(g);
        rotate::<T, RBNode<T>>(&mut sub, &path, location_rel);
        let mut top = sub.unwrap();
        if left_flaw {
            // the grandparent went down to the right
            let mut grandparent = top.right.take().unwrap();
            Self::recolor(&mut *grandparent);
            top.right = Some(grandparent);
        } else {
            let mut grandparent = top.left.take().unwrap();
            Self::recolor(&mut *grandparent);
            top.left = Some(grandparent);
        }
        // the parent (single rotation) or the node (double rotation) is on top
        Self::recolor(&mut *top);
        top
    }

    /// Inserts `value` into the subtree `node` as a red leaf and repairs the
    /// way back up; the flag tells whether the value was new.
    #[verifier::rlimit(40)]
    fn insert_node(node: Option<Box<RBNode<T>>>, value: T) -> (r: (Option<Box<RBNode<T>>>, bool))
        requires
            key_order::<T>(),
            rb_valid(node),
            rb_ordered(node),
        ensures
            r == rb_insert_node(node, value),
            rb_values(r.0) == rb_values(node).insert(value),
            r.1 == !rb_values(node).contains(value),
            !r.1 ==> r.0 == node,
            r.0 is Some,
            rb_ordered(r.0),
            black_height(r.0) == black_height(node),
            !is_red(node) ==> rb_valid(r.0),
            is_red(node) ==> red_flaw(r.0),
        decreases node,
    {
        proof {
            lemma_key_order::<T>();
            lemma_rb_insert_node::<T>(node, value);
        }
        match node {
            None => {
                let leaf = RBNode { value, color: Color::Red, left: None, right: None };
                (Some(Box::new(leaf)), true)
            },
            Some(n) => {
                let mut n = n;
                let ghost old_n = *n;
                proof {
                    lemma_unfold::<T, RBNode<T>>(old_n);
                }
                if same(&n.value, &value) {
                    return (Some(n), false);
                } else if less(&value, &n.value) {
                    let (l, inserted) = Self::insert_node(n.left.take(), value);
                    n.left = l;
                    if !inserted {
                        return (Some(n), false);
                    }
                    proof {
                        lemma_unfold::<T, RBNode<T>>(*n);
                    }
                    (Some(Self::rebalance_insert(n)), true)
                } else {
                    let (rc, inserted) = Self::insert_node(n.right.take(), value);
                    n.right = rc;
                    if !inserted {
                        return (Some(n), false);
                    }
                    proof {
                        lemma_unfold::<T, RBNode<T>>(*n);
                    }
                    (Some(Self::rebalance_insert(n)), true)
                }
            },
        }
    }

    /// Inserts `value`; returns whether it was new. A value that is already
    /// present leaves the tree as it was.
    pub fn insert(&mut self, value: T) -> (r: bool)
        requires
            old(self).wf(),
        ensures
            final(self).root == rb_insert_tree(old(self).root, value),
            final(self).wf(),
            final(self).values() == old(self).values().insert(value),
            r == !old(self).values().contains(value),
            !r ==> *final(self) == *old(self),
    {
        let (root, inserted) = Self::insert_node(self.root.take(), value);
        if !inserted {
            self.root = root;
            return false;
        }
        let mut top = root.unwrap();
        if top.color == Color::Red {
            // the root is always black
            let ghost t0 = *top;
            top.color = Color::Black;
            proof {
                lemma_rb_congruent::<T>(*top, t0);
            }
        }
        self.root = Some(top);
        true
    }

    /// Left rotation around `x`: its right child `y` takes its place and `x`
    /// becomes the left child of `y`, keeping the former left subtree of `y`
    /// as its right subtree.
    fn left_rotate(x: Box<RBNode<T>>) -> (r: Box<RBNode<T>>)
        requires
            x.right is Some,
        ensures
            *r == rb_left_rotate(*x),
            rb_values(Some(r)) == rb_values(Some(x)),
            key_order::<T>() && rb_ordered(Some(x)) ==> rb_ordered(Some(r)),
    {
        proof {
            lemma_rotation_preserves_order::<T, RBNode<T>>(*x, LocationRel::RR);
        }
        let mut x = x;
        let mut y = x.right.take().unwrap();
        // the left subtree of y moves under x
        x.right = y.left.take();
        // x goes under y
        y.left = Some(x);
        y
    }

    /// Right rotation around `x`: its left child `y` takes its place and `x`
    /// becomes the right child of `y`, keeping the former right subtree of
    /// `y` as its left subtree.
    fn right_rotate(x: Box<RBNode<T>>) -> (r: Box<RBNode<T>>)
        requires
            x.left is Some,
        ensures
            *r == rb_right_rotate(*x),
            rb_values(Some(r)) == rb_values(Some(x)),
            key_order::<T>() && rb_ordered(Some(x)) ==> rb_ordered(Some(r)),
    {
        proof {
            lemma_rotation_preserves_order::<T, RBNode<T>>(*x, LocationRel::LL);
        }
        let mut x = x;
        let mut y = x.left.take().unwrap();
        x.left = y.right.take();
        y.right = Some(x);
        y
    }

    /// Sets the colour of the root of a subtree that is present.
    fn paint(node: &mut Option<Box<RBNode<T>>>, c: Color)
        requires
            *old(node) is Some,
        ensures
            *final(node) == Some(Box::new(rb_painted(*old(node).unwrap(), c))),
            rb_values(*final(node)) == rb_values(*old(node)),
            rb_ordered(*final(node)) == rb_ordered(*old(node)),
    {
        let mut b = node.take().unwrap();
        let ghost b0 = *b;
        b.color = c;
        proof {
            lemma_rb_congruent::<T>(*b, b0);
        }
        *node = Some(b);
    }

    /// Repairs `n` after the subtree on the side of `x` (left when
    /// `x_is_left`) lost one black node on every path. The flag in the result
    /// tells whether the whole subtree of `n` still lacks one black node, so
    /// that the repair goes on one level up.
    fn rebalance_delete(n: Box<RBNode<T>>, x_is_left: bool) -> (r: (Box<RBNode<T>>, bool))
        requires
            key_order::<T>(),
            rb_ordered(Some(n)),
            rb_valid(n.left),
            rb_valid(n.right),
            x_is_left ==> black_height(n.left) + 1 == black_height(n.right) && (n.color
                == Color::Red ==> !is_red(n.right)),
            !x_is_left ==> black_height(n.right) + 1 == black_height(n.left) && (n.color
                == Color::Red ==> !is_red(n.left)),
        ensures
            (*r.0, r.1) == rb_rebalance_delete(*n, x_is_left),
            rb_values(Some(r.0)) == rb_values(Some(n)),
            rb_ordered(Some(r.0)),
            rb_valid(Some(r.0)),
            ({
                let target = (if x_is_left {
                    black_height(n.right)
                } else {
                    black_height(n.left)
                }) + if n.color == Color::Black {
                    1int
                } else {
                    0int
                };
                &&& !r.1 ==> black_height(Some(r.0)) == target && (r.0.color == Color::Red
                    ==> n.color == Color::Red)
                &&& r.1 ==> black_height(Some(r.0)) + 1 == target && n.color == Color::Black
                    && r.0.color == Color::Black
            }),
        decreases (if x_is_left {
            if is_red(n.right) {
                1nat
            } else {
                0nat
            }
        } else {
            if is_red(n.left) {
                1nat
            } else {
                0nat
            }
        }),
    {
        proof {
            lemma_rb_rebalance_delete::<T>(*n, x_is_left);
        }
        let mut n = n;
        if x_is_left {
            // x is the left child, its sibling w the right one
            if Self::node_color(&n.left) == Color::Red {
                Self::paint(&mut n.left, Color::Black);
                return (n, false);
            }
            if Self::node_color(&n.right) == Color::Red {
                // case 1: red sibling
                Self::paint(&mut n.right, Color::Black);
                n.color = Color::Red;
                let mut top = Self::left_rotate(n);
                let inner = top.left.take().unwrap();
                let (fixed, _) = Self::rebalance_delete(inner, true);
                top.left = Some(fixed);
                return (top, false);
            }
            let w_left_black = Self::node_color(&n.right.as_ref().unwrap().left) == Color::Black;
            let w_right_black = Self::node_color(&n.right.as_ref().unwrap().right) == Color::Black;
            if w_left_black && w_right_black {
                // case 2: black sibling with black children
                Self::paint(&mut n.right, Color::Red);
                if n.color == Color::Red {
                    n.color = Color::Black;
                    return (n, false);
                }
                return (n, true);
            }
            if w_right_black {
                // case 3: the near nephew is red, the far one black
                let mut w = n.right.take().unwrap();
                Self::paint(&mut w.left, Color::Black);
                w.color = Color::Red;
                let w = Self::right_rotate(w);
                n.right = Some(w);
            }
            // case 4: the far nephew is red
            let mut w = n.right.take().unwrap();
            w.color = n.color;
            Self::paint(&mut w.right, Color::Black);
            n.right = Some(w);
            n.color = Color::Black;
            let top = Self::left_rotate(n);
            (top, false)
        } else {
            // x is the right child, its sibling w the left one
            if Self::node_color(&n.right) == Color::Red {
                Self::paint(&mut n.right, Color::Black);
                return (n, false);
            }
            if Self::node_color(&n.left) == Color::Red {
                // case 1: red sibling
                Self::paint(&mut n.left, Color::Black);
                n.color = Color::Red;
                let mut top = Self::right_rotate(n);
                let inner = top.right.take().unwrap();
                let (fixed, _) = Self::rebalance_delete(inner, false);
                top.right = Some(fixed);
                return (top, false);
            }
            let w_left_black = Self::node_color(&n.left.as_ref().unwrap().left) == Color::Black;
            let w_right_black = Self::node_color(&n.left.as_ref().unwrap().right) == Color::Black;
            if w_left_black && w_right_black {
                // case 2: black sibling with black children
                Self::paint(&mut n.left, Color::Red);
                if n.color == Color::Red {
                    n.color = Color::Black;
                    return (n, false);
                }
                return (n, true);
            }
            if w_left_black {
                // case 3: the near nephew is red, the far one black
                let mut w = n.left.take().unwrap();
                Self::paint(&mut w.right, Color::Black);
                w.color = Color::Red;
                let w = Self::left_rotate(w);
                n.left = Some(w);
            }
            // case 4: the far nephew is red
            let mut w = n.left.take().unwrap();
            w.color = n.color;
            Self::paint(&mut w.left, Color::Black);
            n.left = Some(w);
            n.color = Color::Black;
            let top = Self::right_rotate(n);
            (top, false)
        }
    }

    /// Removes the largest value of the subtree `n` (its in-order
    /// predecessor, when `n` is the left child of the node being deleted):
    /// the rightmost node is replaced by its left child. The flag tells
    /// whether the subtree lost one black node on every path.
    fn delete_max(n: Box<RBNode<T>>) -> (r: (Option<Box<RBNode<T>>>, T, bool))
        requires
            key_order::<T>(),
            rb_valid(Some(n)),
            rb_ordered(Some(n)),
        ensures
            r == rb_delete_max(*n),
            rb_values(Some(n)).contains(r.1),
            rb_values(r.0) == rb_values(Some(n)).remove(r.1),
            forall|x: T| #[trigger] rb_values(Some(n)).contains(x) ==> x == r.1 || lt(x, r.1),
            rb_ordered(r.0),
            rb_valid(r.0),
            r.2 ==> black_height(r.0) + 1 == black_height(Some(n)),
            !r.2 ==> black_height(r.0) == black_height(Some(n)) && (is_red(r.0) ==> n.color
                == Color::Red),
        decreases n,
    {
        proof {
            lemma_rb_delete_max::<T>(*n);
        }
        let mut n = n;
        match n.right.take() {
            None => {
                (n.left.take(), n.value, n.color == Color::Black)
            },
            Some(right) => {
                let (rest, max, short) = Self::delete_max(right);
                n.right = rest;
                if short {
                    let (top, still_short) = Self::rebalance_delete(n, false);
                    (Some(top), max, still_short)
                } else {
                    (Some(n), max, false)
                }
            },
        }
    }

    /// Deletes `value` from the subtree `node`. The first flag tells whether
    /// it was there, the second whether the subtree lost one black node on
    /// every path. A node with two children takes the value of its in-order
    /// predecessor, whose node is removed instead.
    #[verifier::rlimit(40)]
    fn delete_node(node: Option<Box<RBNode<T>>>, value: T) -> (r: (
        Option<Box<RBNode<T>>>,
        bool,
        bool,
    ))
        requires
            key_order::<T>(),
            rb_valid(node),
            rb_ordered(node),
        ensures
            r == rb_delete_node(node, value),
            rb_values(r.0) == rb_values(node).remove(value),
            r.1 == rb_values(node).contains(value),
            !r.1 ==> r.0 == node && !r.2,
            rb_ordered(r.0),
            rb_valid(r.0),
            r.2 ==> black_height(r.0) + 1 == black_height(node),
            !r.2 ==> black_height(r.0) == black_height(node) && (is_red(r.0) ==> is_red(node)),
        decreases node,
    {
        proof {
            lemma_key_order::<T>();
            lemma_rb_delete_node::<T>(node, value);
        }
        match node {
            None => {
                (None, false, false)
            },
            Some(z) => {
                let mut z = z;
                let ghost old_z = *z;
                proof {
                    lemma_unfold::<T, RBNode<T>>(old_z);
                }
                if same(&z.value, &value) {
                    if z.left.is_none() {
                        // only a right child, or none
                        let right_child = z.right.take();
                        (right_child, true, z.color == Color::Black)
                    } else if z.right.is_none() {
                        // only a left child
                        let left_child = z.left.take();
                        (left_child, true, z.color == Color::Black)
                    } else {
                        // two children: the predecessor's value takes the place of z's
                        let (rest, pred, short) = Self::delete_max(z.left.take().unwrap());
                        z.left = rest;
                        z.value = pred;
                        proof {
                            lemma_unfold::<T, RBNode<T>>(*z);
                        }
                        if short {
                            let (top, still_short) = Self::rebalance_delete(z, true);
                            (Some(top), true, still_short)
                        } else {
                            (Some(z), true, false)
                        }
                    }
                } else if less(&value, &z.value) {
                    let (l, deleted, short) = Self::delete_node(z.left.take(), value);
                    z.left = l;
                    proof {
                        lemma_unfold::<T, RBNode<T>>(*z);
                    }
                    if short {
                        let (top, still_short) = Self::rebalance_delete(z, true);
                        (Some(top), true, still_short)
                    } else {
                        (Some(z), deleted, false)
                    }
                } else {
                    let (rc, deleted, short) = Self::delete_node(z.right.take(), value);
                    z.right = rc;
                    proof {
                        lemma_unfold::<T, RBNode<T>>(*z);
                    }
                    if short {
                        let (top, still_short) = Self::rebalance_delete(z, false);
                        (Some(top), true, still_short)
                    } else {
                        (Some(z), deleted, false)
                    }
                }
            },
        }
    }

    /// Deletes `value`; returns whether it was present. An absent value
    /// leaves the tree as it was.
    pub fn delete(&mut self, value: T) -> (r: bool)
        requires
            old(self).wf(),
        ensures
            final(self).root == rb_delete_tree(old(self).root, value),
            final(self).wf(),
            final(self).values() == old(self).values().remove(value),
            r == old(self).values().contains(value),
            !r ==> *final(self) == *old(self),
    {
        let (mut root, deleted, _short) = Self::delete_node(self.root.take(), value);
        if Self::node_color(&root) == Color::Red {
            // the root is always black
            Self::paint(&mut root, Color::Black);
            proof {
                assert(rb_valid(root));
            }
        }
        self.root = root;
        deleted
    }
}

} // verus!

verus! {

impl<T: Ord + Copy> TreeOps<T> for RedBlackTree<T> {
    open spec fn spec_wf(&self) -> bool {
        self.wf()
    }

    open spec fn spec_values(&self) -> Set<T> {
        self.values()
    }

    open spec fn spec_inorder(&self) -> Seq<T> {
        inorder::<T, RBNode<T>>(self.root)
    }

    open spec fn spec_leaf_count(&self) -> nat {
        leaf_count::<T, RBNode<T>>(self.root)
    }

    open spec fn spec_tree_height(&self) -> nat {
        tree_height::<T, RBNode<T>>(self.root)
    }

    open spec fn spec_room_for(&self, n: nat) -> bool {
        true
    }

    open spec fn spec_insert_all(&self, v: Seq<T>) -> Self {
        RedBlackTree { root: rb_insert_all(self.root, v) }
    }

    open spec fn spec_delete_all(&self, v: Seq<T>) -> Self {
        RedBlackTree { root: rb_delete_all(self.root, v) }
    }

    fn insert(&mut self, v: Vec<T>) -> (r: Vec<bool>) {
        let ghost start = self.values();
        let mut flags: Vec<bool> = Vec::new();
        let mut i: usize = 0;
        while i < v.len()
            invariant
                self.wf(),
                i <= v.len(),
                start == old(self).values(),
                self.root == rb_insert_all(old(self).root, v@.subrange(0, i as int)),
                self.values() == start.union(v@.subrange(0, i as int).to_set()),
                flags.len() == i,
                forall|k: int|
                    0 <= k < i ==> #[trigger] flags@[k] == !start.union(
                        v@.subrange(0, k).to_set(),
                    ).contains(v@[k]),
            decreases v.len() - i,
        {
            let x = v[i];
            let inserted = RedBlackTree::insert(self, x);
            flags.push(inserted);
            proof {
                assert(v@.subrange(0, i + 1) == v@.subrange(0, i as int).push(x));
                assert(v@.subrange(0, i + 1).drop_last() == v@.subrange(0, i as int));
                v@.subrange(0, i as int).lemma_push_to_set_commute(x);
                assert(start.union(v@.subrange(0, i + 1).to_set()) =~= start.union(
                    v@.subrange(0, i as int).to_set(),
                ).insert(x));
            }
            i = i + 1;
        }
        proof {
            assert(v@.subrange(0, v.len() as int) == v@);
        }
        flags
    }

    fn delete(&mut self, v: Vec<T>) -> (r: Vec<bool>) {
        let ghost start = self.values();
        let mut flags: Vec<bool> = Vec::new();
        let mut i: usize = 0;
        while i < v.len()
            invariant
                self.wf(),
                i <= v.len(),
                start == old(self).values(),
                self.root == rb_delete_all(old(self).root, v@.subrange(0, i as int)),
                self.values() == start.difference(v@.subrange(0, i as int).to_set()),
                flags.len() == i,
                forall|k: int|
                    0 <= k < i ==> #[trigger] flags@[k] == start.difference(
                        v@.subrange(0, k).to_set(),
                    ).contains(v@[k]),
            decreases v.len() - i,
        {
            let x = v[i];
            let deleted = RedBlackTree::delete(self, x);
            flags.push(deleted);
            proof {
                assert(v@.subrange(0, i + 1) == v@.subrange(0, i as int).push(x));
                assert(v@.subrange(0, i + 1).drop_last() == v@.subrange(0, i as int));
                v@.subrange(0, i as int).lemma_push_to_set_commute(x);
                assert(start.difference(v@.subrange(0, i + 1).to_set()) =~= start.difference(
                    v@.subrange(0, i as int).to_set(),
                ).remove(x));
            }
            i = i + 1;
        }
        proof {
            assert(v@.subrange(0, v.len() as int) == v@);
        }
        flags
    }

    fn count_leaves(&self) -> (r: usize) {
        count_leaves::<T, RBNode<T>>(&self.root)
    }

    fn height(&self) -> (r: usize) {
        height::<T, RBNode<T>>(&self.root)
    }

    fn inorder_traversal(&self) -> (r: Vec<T>) {
        proof {
            lemma_inorder_sorted::<T, RBNode<T>>(self.root);
        }
        inorder_traversal::<T, RBNode<T>>(&self.root)
    }

    fn is_tree_empty(&self) -> (r: bool) {
        proof {
            if self.root is Some {
                let b = self.root.unwrap();
                lemma_unfold::<T, RBNode<T>>(*b);
                assert(self.values().contains(b.value));
            }
        }
        self.root.is_none()
    }

    fn clear(&mut self) {
        self.root = None;
    }
}

} // verus!
