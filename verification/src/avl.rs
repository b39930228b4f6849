use vstd::prelude::*;

use crate::common::{
    count_leaves, height, inorder, inorder_traversal, is_bst, leaf_count, lemma_inorder_sorted,
    lemma_bst_len, lemma_rotation_preserves_order, lemma_subtree_at_two, lemma_unfold, rotate, rotated,
    tree_height, tree_set, Dir, DisplayColor, LocationRel, TreeNode, TreeOps,
};
use crate::order::{key_order, lemma_key_order, less, lt, same};
use vstd::arithmetic::power2::{
    lemma2_to64, lemma_pow2_strictly_increases, lemma_pow2_unfold, pow2,
};

verus! {

/// A node of an AVL tree; `height` is the number of nodes on the longest
/// path from this node down to a leaf.
#[derive(Debug)]
pub struct AVLNode<T: Ord + Copy> {
    pub value: T,
    pub height: i32,
    pub left: Option<Box<AVLNode<T>>>,
    pub right: Option<Box<AVLNode<T>>>,
}

/// A self-balancing search tree: at every node the heights of the two
/// subtrees differ by at most one.
#[derive(Debug)]
pub struct AvlTree<T: Ord + Copy> {
    pub root: Option<Box<AVLNode<T>>>,
}

pub open spec fn max_nat(a: nat, b: nat) -> nat {
    if a >= b {
        a
    } else {
        b
    }
}

pub open spec fn avl_size<T: Ord + Copy>(n: Option<Box<AVLNode<T>>>) -> nat
    decreases n,
{
    match n {
        None => 0,
        Some(b) => 1 + avl_size(b.left) + avl_size(b.right),
    }
}

/// The true height of a subtree.
pub open spec fn ht<T: Ord + Copy>(n: Option<Box<AVLNode<T>>>) -> nat
    decreases n,
{
    match n {
        None => 0,
        Some(b) => 1 + max_nat(ht(b.left), ht(b.right)),
    }
}

/// The height that a subtree's root records; 0 for an empty subtree.
pub open spec fn stored_height<T: Ord + Copy>(n: Option<Box<AVLNode<T>>>) -> int {
    match n {
        None => 0,
        Some(b) => b.height as int,
    }
}

/// Every node records its true height and is balanced.
pub open spec fn is_avl<T: Ord + Copy>(n: Option<Box<AVLNode<T>>>) -> bool
    decreases n,
{
    match n {
        None => true,
        Some(b) => {
            &&& is_avl(b.left)
            &&& is_avl(b.right)
            &&& b.height as int == 1 + max_nat(ht(b.left), ht(b.right))
            &&& -1 <= ht(b.left) - ht(b.right) <= 1
        },
    }
}

/// The values held by a subtree.
pub open spec fn avl_values<T: Ord + Copy>(n: Option<Box<AVLNode<T>>>) -> Set<T> {
    tree_set::<T, AVLNode<T>>(n)
}

/// The subtree is a search tree.
pub open spec fn avl_ordered<T: Ord + Copy>(n: Option<Box<AVLNode<T>>>) -> bool {
    is_bst::<T, AVLNode<T>>(n)
}

/// A valid AVL subtree.
pub open spec fn avl_wf<T: Ord + Copy>(n: Option<Box<AVLNode<T>>>) -> bool {
    &&& key_order::<T>()
    &&& is_avl(n)
    &&& avl_ordered(n)
}

impl<T: Ord + Copy> TreeNode<T> for AVLNode<T> {
    open spec fn spec_value(&self) -> T {
        self.value
    }

    open spec fn spec_left(&self) -> Option<Box<Self>> {
        self.left
    }

    open spec fn spec_right(&self) -> Option<Box<Self>> {
        self.right
    }

    open spec fn spec_with_left(&self, l: Option<Box<Self>>) -> Self {
        AVLNode { left: l, ..*self }
    }

    open spec fn spec_with_right(&self, r: Option<Box<Self>>) -> Self {
        AVLNode { right: r, ..*self }
    }

    open spec fn spec_size(&self) -> nat {
        1 + avl_size(self.left) + avl_size(self.right)
    }

    open spec fn spec_color(&self) -> Option<DisplayColor> {
        None
    }

    open spec fn spec_stored_height(&self) -> Option<usize> {
        Some(self.height as usize)
    }

    proof fn lemma_children_smaller(&self) {
    }

    proof fn lemma_with_laws(&self, a: Option<Box<Self>>, b: Option<Box<Self>>) {
    }

    fn value(&self) -> (r: &T) {
        &self.value
    }

    fn left(&self) -> (r: &Option<Box<Self>>) {
        &self.left
    }

    fn right(&self) -> (r: &Option<Box<Self>>) {
        &self.right
    }

    fn color(&self) -> (r: Option<DisplayColor>) {
        None
    }

    fn height(&self) -> (r: Option<usize>) {
        Some(self.height as usize)
    }

    fn left_mut(&mut self) -> (r: &mut Option<Box<Self>>) {
        &mut self.left
    }

    fn right_mut(&mut self) -> (r: &mut Option<Box<Self>>) {
        &mut self.right
    }
}

/// The larger of two recorded heights, plus one.
pub open spec fn next_height(a: int, b: int) -> int {
    1 + if a >= b {
        a
    } else {
        b
    }
}

/// `n` recording one more than the larger recorded height of its children.
pub open spec fn avl_updated<T: Ord + Copy>(n: AVLNode<T>) -> AVLNode<T> {
    AVLNode { height: next_height(stored_height(n.left), stored_height(n.right)) as i32, ..n }
}

/// The single rotation for a left-left imbalance at `n`, with fresh heights
/// for the two nodes that moved.
pub open spec fn avl_rot_ll<T: Ord + Copy>(n: AVLNode<T>) -> AVLNode<T> {
    let p = *n.left.unwrap();
    let g2 = AVLNode { left: p.right, ..n };
    let g2 = avl_updated(g2);
    avl_updated(AVLNode { right: Some(Box::new(g2)), ..p })
}

/// The single rotation for a right-right imbalance at `n`, with fresh
/// heights for the two nodes that moved.
pub open spec fn avl_rot_rr<T: Ord + Copy>(n: AVLNode<T>) -> AVLNode<T> {
    let p = *n.right.unwrap();
    let g2 = avl_updated(AVLNode { right: p.left, ..n });
    avl_updated(AVLNode { left: Some(Box::new(g2)), ..p })
}

/// The double rotation for a left-right imbalance at `n`: the right child of
/// the left child comes up; fresh heights for the three nodes that moved.
pub open spec fn avl_rot_lr<T: Ord + Copy>(n: AVLNode<T>) -> AVLNode<T> {
    let p = *n.left.unwrap();
    let c = *p.right.unwrap();
    let p2 = avl_updated(AVLNode { right: c.left, ..p });
    let g2 = avl_updated(AVLNode { left: c.right, ..n });
    avl_updated(AVLNode { left: Some(Box::new(p2)), right: Some(Box::new(g2)), ..c })
}

/// The double rotation for a right-left imbalance at `n`: the left child of
/// the right child comes up; fresh heights for the three nodes that moved.
pub open spec fn avl_rot_rl<T: Ord + Copy>(n: AVLNode<T>) -> AVLNode<T> {
    let p = *n.right.unwrap();
    let c = *p.left.unwrap();
    let p2 = avl_updated(AVLNode { left: c.right, ..p });
    let g2 = avl_updated(AVLNode { right: c.left, ..n });
    avl_updated(AVLNode { left: Some(Box::new(g2)), right: Some(Box::new(p2)), ..c })
}

/// Rebalancing of `n` on the way back from an insertion of `value` below it:
/// fresh height, then a rotation where the heights of the children differ by
/// two, chosen by the side of the taller child and the side of `value` below
/// that child.
pub open spec fn avl_rebalance_insert<T: Ord + Copy>(n: AVLNode<T>, value: T) -> AVLNode<T> {
    let c = avl_updated(n);
    let balance = stored_height(c.left) - stored_height(c.right);
    if balance > 1 {
        let left_value = c.left.unwrap().value;
        if lt(value, left_value) {
            avl_rot_ll(c)
        } else if lt(left_value, value) {
            avl_rot_lr(c)
        } else {
            c
        }
    } else if balance < -1 {
        let right_value = c.right.unwrap().value;
        if lt(right_value, value) {
            avl_rot_rr(c)
        } else if lt(value, right_value) {
            avl_rot_rl(c)
        } else {
            c
        }
    } else {
        c
    }
}

/// Insertion of `value` into the subtree `node`: the search goes down by the
/// order, a new leaf of height 1 takes the empty place, and every node on
/// the way back up is rebalanced. A value already present leaves the subtree
/// as it is. The flag tells whether the value was new.
pub open spec fn avl_insert_node<T: Ord + Copy>(node: Option<Box<AVLNode<T>>>, value: T) -> (
    Option<Box<AVLNode<T>>>,
    bool,
)
    decreases node,
{
    match node {
        None => (Some(Box::new(AVLNode { value, height: 1, left: None, right: None })), true),
        Some(n) => if n.value == value {
            (node, false)
        } else if lt(value, n.value) {
            let (l, inserted) = avl_insert_node(n.left, value);
            if !inserted {
                (node, false)
            } else {
                (Some(Box::new(avl_rebalance_insert(AVLNode { left: l, ..*n }, value))), true)
            }
        } else {
            let (r, inserted) = avl_insert_node(n.right, value);
            if !inserted {
                (node, false)
            } else {
                (Some(Box::new(avl_rebalance_insert(AVLNode { right: r, ..*n }, value))), true)
            }
        },
    }
}

/// Rebalancing of `n` on the way back from a deletion below it: fresh
/// height, then a rotation where the heights of the children differ by two,
/// chosen by the side of the taller child and the balance of that child.
pub open spec fn avl_rebalance_delete<T: Ord + Copy>(n: AVLNode<T>) -> AVLNode<T> {
    let c = avl_updated(n);
    let balance = stored_height(c.left) - stored_height(c.right);
    if balance > 1 {
        let l = *c.left.unwrap();
        if stored_height(l.left) - stored_height(l.right) >= 0 {
            avl_rot_ll(c)
        } else {
            avl_rot_lr(c)
        }
    } else if balance < -1 {
        let r = *c.right.unwrap();
        if stored_height(r.left) - stored_height(r.right) <= 0 {
            avl_rot_rr(c)
        } else {
            avl_rot_rl(c)
        }
    } else {
        c
    }
}

/// Removal of the largest value of the subtree `n`: its rightmost node is
/// replaced by its left child, and every node on the way back up is
/// rebalanced. Gives the rest of the subtree and the value.
pub open spec fn avl_remove_max<T: Ord + Copy>(n: AVLNode<T>) -> (Option<Box<AVLNode<T>>>, T)
    decreases n,
{
    match n.right {
        None => (n.left, n.value),
        Some(r) => {
            let (rest, max) = avl_remove_max(*r);
            (Some(Box::new(avl_rebalance_delete(AVLNode { right: rest, ..n }))), max)
        },
    }
}

/// Deletion of `value` from the subtree `node`: a node with at most one
/// child is replaced by that child; a node with two children takes the
/// value of its in-order predecessor, whose node is removed from the left
/// subtree instead; every node on the way back up is rebalanced. An absent
/// value leaves the subtree as it is. The flag tells whether it was there.
pub open spec fn avl_delete_node<T: Ord + Copy>(node: Option<Box<AVLNode<T>>>, value: T) -> (
    Option<Box<AVLNode<T>>>,
    bool,
)
    decreases node,
{
    match node {
        None => (None, false),
        Some(n) => if n.value == value {
            if n.left is Some && n.right is Some {
                let (rest, pred) = avl_remove_max(*n.left.unwrap());
                (
                    Some(Box::new(avl_rebalance_delete(AVLNode { left: rest, value: pred, ..*n }))),
                    true,
                )
            } else if n.left is Some {
                (n.left, true)
            } else {
                (n.right, true)
            }
        } else if lt(value, n.value) {
            let (l, deleted) = avl_delete_node(n.left, value);
            if !deleted {
                (node, false)
            } else {
                (Some(Box::new(avl_rebalance_delete(AVLNode { left: l, ..*n }))), true)
            }
        } else {
            let (r, deleted) = avl_delete_node(n.right, value);
            if !deleted {
                (node, false)
            } else {
                (Some(Box::new(avl_rebalance_delete(AVLNode { right: r, ..*n }))), true)
            }
        },
    }
}

/// The tree `root` after inserting the values of `s` one after the other.
pub open spec fn avl_insert_all<T: Ord + Copy>(root: Option<Box<AVLNode<T>>>, s: Seq<T>) -> Option<
    Box<AVLNode<T>>,
>
    decreases s.len(),
{
    if s.len() == 0 {
        root
    } else {
        avl_insert_node(avl_insert_all(root, s.drop_last()), s.last()).0
    }
}

/// The tree `root` after deleting the values of `s` one after the other.
pub open spec fn avl_delete_all<T: Ord + Copy>(root: Option<Box<AVLNode<T>>>, s: Seq<T>) -> Option<
    Box<AVLNode<T>>,
>
    decreases s.len(),
{
    if s.len() == 0 {
        root
    } else {
        avl_delete_node(avl_delete_all(root, s.drop_last()), s.last()).0
    }
}

/// Two nodes with the same value whose children hold the same values, in
/// the same order, hold the same values in the same order.
pub proof fn lemma_congruent<T: Ord + Copy>(a: AVLNode<T>, b: AVLNode<T>)
    requires
        a.value == b.value,
        avl_values(a.left) == avl_values(b.left),
        avl_values(a.right) == avl_values(b.right),
        avl_ordered(a.left) == avl_ordered(b.left),
        avl_ordered(a.right) == avl_ordered(b.right),
    ensures
        avl_values(Some(Box::new(a))) == avl_values(Some(Box::new(b))),
        avl_ordered(Some(Box::new(a))) == avl_ordered(Some(Box::new(b))),
{
    lemma_unfold::<T, AVLNode<T>>(a);
    lemma_unfold::<T, AVLNode<T>>(b);
}

/// A valid subtree records its true height at the root.
pub proof fn lemma_stored_is_true<T: Ord + Copy>(n: Option<Box<AVLNode<T>>>)
    requires
        is_avl(n),
    ensures
        stored_height(n) == ht(n),
        0 <= stored_height(n),
{
}

/// The subtree with every node recording its true height.
pub open spec fn with_true_heights<T: Ord + Copy>(n: Option<Box<AVLNode<T>>>) -> Option<
    Box<AVLNode<T>>,
>
    decreases n,
{
    match n {
        None => None,
        Some(b) => Some(
            Box::new(
                AVLNode {
                    value: b.value,
                    height: ht(n) as i32,
                    left: with_true_heights(b.left),
                    right: with_true_heights(b.right),
                },
            ),
        ),
    }
}

/// The height that the nodes record is the height of the shared model.
pub proof fn lemma_ht_is_tree_height<T: Ord + Copy>(n: Option<Box<AVLNode<T>>>)
    ensures
        ht(n) == tree_height::<T, AVLNode<T>>(n),
    decreases n,
{
    if let Some(b) = n {
        lemma_ht_is_tree_height::<T>(b.left);
        lemma_ht_is_tree_height::<T>(b.right);
    }
}

proof fn lemma_pow2_monotone(a: nat, b: nat)
    requires
        a <= b,
    ensures
        pow2(a) <= pow2(b),
{
    if a < b {
        lemma_pow2_strictly_increases(a, b);
    }
}

/// A balanced subtree of height `h` has at least 2^(h/2) - 1 nodes.
pub proof fn lemma_avl_size<T: Ord + Copy>(n: Option<Box<AVLNode<T>>>)
    requires
        is_avl(n),
    ensures
        pow2(ht(n) / 2) <= avl_size(n) + 1,
    decreases n,
{
    lemma2_to64();
    if let Some(b) = n {
        lemma_avl_size::<T>(b.left);
        lemma_avl_size::<T>(b.right);
        let h = ht(n);
        if h >= 2 {
            let e = (h / 2 - 1) as nat;
            lemma_pow2_monotone(e, ht(b.left) / 2);
            lemma_pow2_monotone(e, ht(b.right) / 2);
            lemma_pow2_unfold(h / 2);
            assert((h / 2 - 1) as nat == e);
        }
    }
}

/// The Fibonacci numbers: 0, 1, 1, 2, 3, 5, ...
pub open spec fn fib(n: nat) -> nat
    decreases n,
{
    if n == 0 {
        0
    } else if n == 1 {
        1
    } else {
        fib((n - 1) as nat) + fib((n - 2) as nat)
    }
}

proof fn lemma_fib_monotone(a: nat, b: nat)
    requires
        a <= b,
    ensures
        fib(a) <= fib(b),
    decreases b - a,
{
    if a < b {
        lemma_fib_monotone(a, (b - 1) as nat);
        if b >= 2 {
            assert(fib(b) == fib((b - 1) as nat) + fib((b - 2) as nat));
        }
    }
}

/// A balanced subtree of height `h` has at least fib(h + 2) - 1 nodes, the
/// size of the sparsest AVL tree of that height.
pub proof fn lemma_avl_size_fib<T: Ord + Copy>(n: Option<Box<AVLNode<T>>>)
    requires
        is_avl(n),
    ensures
        fib(ht(n) + 2) <= avl_size(n) + 1,
    decreases n,
{
    assert(fib(2) == 1) by {
        reveal_with_fuel(fib, 3);
    }
    assert(fib(3) == 2) by {
        reveal_with_fuel(fib, 4);
    }
    if let Some(b) = n {
        lemma_avl_size_fib::<T>(b.left);
        lemma_avl_size_fib::<T>(b.right);
        let h = ht(n);
        if h >= 2 {
            lemma_fib_monotone(h, ht(b.left) + 2);
            lemma_fib_monotone(h, ht(b.right) + 2);
            assert(fib(h + 2) == fib(h + 1) + fib(h));
        }
    }
}

/// An AVL tree is balanced: its height grows with the logarithm of the
/// number of values it holds (one per node), since a tree of height `h`
/// holds at least fib(h + 2) - 1 values, and so at least 2^(h/2) - 1.
pub proof fn lemma_avl_height_logarithmic<T: Ord + Copy>(t: &AvlTree<T>)
    requires
        t.wf(),
    ensures
        tree_height::<T, AVLNode<T>>(t.root) == t.spec_height(),
        t.values().finite(),
        t.values().len() == avl_size(t.root),
        pow2(t.spec_height() / 2) <= t.values().len() + 1,
        fib(t.spec_height() + 2) <= t.values().len() + 1,
{
    lemma_ht_is_tree_height::<T>(t.root);
    lemma_avl_size::<T>(t.root);
    lemma_avl_size_fib::<T>(t.root);
    lemma_avl_size_is_len::<T>(t.root);
}

/// A search tree holds as many values as it has nodes.
pub proof fn lemma_avl_size_is_len<T: Ord + Copy>(n: Option<Box<AVLNode<T>>>)
    requires
        key_order::<T>(),
        avl_ordered(n),
    ensures
        avl_values(n).finite(),
        avl_values(n).len() == avl_size(n),
    decreases n,
{
    match n {
        None => {},
        Some(b) => {
            lemma_unfold::<T, AVLNode<T>>(*b);
            lemma_avl_size_is_len::<T>(b.left);
            lemma_avl_size_is_len::<T>(b.right);
            lemma_bst_len::<T, AVLNode<T>>(*b);
        },
    }
}

/// The four rotations keep the values and the search-tree order.
pub proof fn lemma_avl_rotations<T: Ord + Copy>(n: AVLNode<T>)
    ensures
        n.left is Some ==> avl_values(Some(Box::new(avl_rot_ll(n)))) == avl_values(
            Some(Box::new(n)),
        ) && (key_order::<T>() && avl_ordered(Some(Box::new(n))) ==> avl_ordered(
            Some(Box::new(avl_rot_ll(n))),
        )),
        n.right is Some ==> avl_values(Some(Box::new(avl_rot_rr(n)))) == avl_values(
            Some(Box::new(n)),
        ) && (key_order::<T>() && avl_ordered(Some(Box::new(n))) ==> avl_ordered(
            Some(Box::new(avl_rot_rr(n))),
        )),
        n.left matches Some(p) && p.right is Some ==> avl_values(Some(Box::new(avl_rot_lr(n))))
            == avl_values(Some(Box::new(n))) && (key_order::<T>() && avl_ordered(
            Some(Box::new(n)),
        ) ==> avl_ordered(Some(Box::new(avl_rot_lr(n))))),
        n.right matches Some(p) && p.left is Some ==> avl_values(Some(Box::new(avl_rot_rl(n))))
            == avl_values(Some(Box::new(n))) && (key_order::<T>() && avl_ordered(
            Some(Box::new(n)),
        ) ==> avl_ordered(Some(Box::new(avl_rot_rl(n))))),
{
    if n.left is Some {
        let rot = rotated::<T, AVLNode<T>>(n, LocationRel::LL);
        lemma_rotation_preserves_order::<T, AVLNode<T>>(n, LocationRel::LL);
        let top = avl_rot_ll(n);
        lemma_congruent::<T>(*top.right.unwrap(), *rot.right.unwrap());
        lemma_congruent::<T>(top, rot);
        if n.left.unwrap().right is Some {
            let rot = rotated::<T, AVLNode<T>>(n, LocationRel::LR);
            lemma_rotation_preserves_order::<T, AVLNode<T>>(n, LocationRel::LR);
            let top = avl_rot_lr(n);
            lemma_congruent::<T>(*top.left.unwrap(), *rot.left.unwrap());
            lemma_congruent::<T>(*top.right.unwrap(), *rot.right.unwrap());
            lemma_congruent::<T>(top, rot);
        }
    }
    if n.right is Some {
        let rot = rotated::<T, AVLNode<T>>(n, LocationRel::RR);
        lemma_rotation_preserves_order::<T, AVLNode<T>>(n, LocationRel::RR);
        let top = avl_rot_rr(n);
        lemma_congruent::<T>(*top.left.unwrap(), *rot.left.unwrap());
        lemma_congruent::<T>(top, rot);
        if n.right.unwrap().left is Some {
            let rot = rotated::<T, AVLNode<T>>(n, LocationRel::RL);
            lemma_rotation_preserves_order::<T, AVLNode<T>>(n, LocationRel::RL);
            let top = avl_rot_rl(n);
            lemma_congruent::<T>(*top.left.unwrap(), *rot.left.unwrap());
            lemma_congruent::<T>(*top.right.unwrap(), *rot.right.unwrap());
            lemma_congruent::<T>(top, rot);
        }
    }
}

/// Below a node whose subtrees are valid, the children, the grandchildren
/// and the great-grandchildren on the inner sides record their true heights:
/// the heights that a rotation at the node reads.
proof fn lemma_stored_near_top<T: Ord + Copy>(n: AVLNode<T>)
    requires
        is_avl(n.left),
        is_avl(n.right),
    ensures
        stored_height(n.left) == ht(n.left),
        stored_height(n.right) == ht(n.right),
        n.left matches Some(l) ==> stored_height(l.left) == ht(l.left) && stored_height(l.right)
            == ht(l.right) && (l.right matches Some(c) ==> stored_height(c.left) == ht(c.left)
            && stored_height(c.right) == ht(c.right)),
        n.right matches Some(r) ==> stored_height(r.left) == ht(r.left) && stored_height(r.right)
            == ht(r.right) && (r.left matches Some(c) ==> stored_height(c.left) == ht(c.left)
            && stored_height(c.right) == ht(c.right)),
{
    lemma_stored_is_true::<T>(n.left);
    lemma_stored_is_true::<T>(n.right);
    if n.left is Some {
        lemma_stored_is_true::<T>(n.left.unwrap().left);
        lemma_stored_is_true::<T>(n.left.unwrap().right);
        if n.left.unwrap().right is Some {
            assert(is_avl(n.left.unwrap().right));
            lemma_stored_is_true::<T>(n.left.unwrap().right.unwrap().left);
            lemma_stored_is_true::<T>(n.left.unwrap().right.unwrap().right);
        }
    }
    if n.right is Some {
        lemma_stored_is_true::<T>(n.right.unwrap().left);
        lemma_stored_is_true::<T>(n.right.unwrap().right);
        if n.right.unwrap().left is Some {
            assert(is_avl(n.right.unwrap().left));
            lemma_stored_is_true::<T>(n.right.unwrap().left.unwrap().left);
            lemma_stored_is_true::<T>(n.right.unwrap().left.unwrap().right);
        }
    }
}

/// What rebalancing after an insertion gives: a balanced subtree with the
/// same values in order, of the height before the insertion when a rotation
/// was needed.
pub proof fn lemma_avl_rebalance_insert<T: Ord + Copy>(n: AVLNode<T>, value: T)
    requires
        key_order::<T>(),
        is_avl(n.left),
        is_avl(n.right),
        avl_ordered(Some(Box::new(n))),
        -2 <= ht(n.left) - ht(n.right) <= 2,
        1 + max_nat(ht(n.left), ht(n.right)) <= i32::MAX,
        ht(n.left) == ht(n.right) + 2 ==> (n.left matches Some(l) && l.value != value && (lt(
            value,
            l.value,
        ) ==> ht(l.left) == ht(l.right) + 1) && (lt(l.value, value) ==> ht(l.right) == ht(
            l.left,
        ) + 1)),
        ht(n.right) == ht(n.left) + 2 ==> (n.right matches Some(rc) && rc.value != value && (lt(
            value,
            rc.value,
        ) ==> ht(rc.left) == ht(rc.right) + 1) && (lt(rc.value, value) ==> ht(rc.right) == ht(
            rc.left,
        ) + 1)),
    ensures
        ({
            let r = avl_rebalance_insert(n, value);
            &&& is_avl(Some(Box::new(r)))
            &&& avl_ordered(Some(Box::new(r)))
            &&& avl_values(Some(Box::new(r))) == avl_values(Some(Box::new(n)))
            &&& -1 <= ht(n.left) - ht(n.right) <= 1 ==> r.value == n.value && r.left == n.left
                && r.right == n.right && ht(Some(Box::new(r))) == 1 + max_nat(
                ht(n.left),
                ht(n.right),
            )
            &&& (ht(n.left) - ht(n.right) == 2 || ht(n.right) - ht(n.left) == 2) ==> ht(
                Some(Box::new(r)),
            ) == max_nat(ht(n.left), ht(n.right))
        }),
{
    lemma_key_order::<T>();
    lemma_stored_near_top::<T>(n);
    let c = avl_updated(n);
    lemma_congruent::<T>(c, n);
    lemma_avl_rotations::<T>(c);
    let r = avl_rebalance_insert(n, value);
    let balance = stored_height(c.left) - stored_height(c.right);
    if balance > 1 {
        let l = *n.left.unwrap();
        assert(ht(Some(Box::new(l))) == 1 + max_nat(ht(l.left), ht(l.right)));
        if lt(value, l.value) {
            let g2 = r.right.unwrap();
            assert(is_avl(Some(g2)));
            assert(ht(Some(g2)) == 1 + ht(n.right));
        } else if lt(l.value, value) {
            let cc = *l.right.unwrap();
            assert(is_avl(l.right));
            assert(ht(Some(Box::new(cc))) == 1 + max_nat(ht(cc.left), ht(cc.right)));
            let p2 = r.left.unwrap();
            let g2 = r.right.unwrap();
            assert(is_avl(Some(p2)));
            assert(is_avl(Some(g2)));
            assert(ht(Some(p2)) == 1 + max_nat(ht(l.left), ht(cc.left)));
            assert(ht(Some(g2)) == 1 + max_nat(ht(cc.right), ht(n.right)));
            assert(ht(Some(Box::new(r))) == 1 + max_nat(ht(Some(p2)), ht(Some(g2))));
        }
    } else if balance < -1 {
        let rc = *n.right.unwrap();
        assert(ht(Some(Box::new(rc))) == 1 + max_nat(ht(rc.left), ht(rc.right)));
        if lt(rc.value, value) {
            let g2 = r.left.unwrap();
            assert(is_avl(Some(g2)));
            assert(ht(Some(g2)) == 1 + ht(n.left));
        } else if lt(value, rc.value) {
            let cc = *rc.left.unwrap();
            assert(is_avl(rc.left));
            assert(ht(Some(Box::new(cc))) == 1 + max_nat(ht(cc.left), ht(cc.right)));
            let p2 = r.right.unwrap();
            let g2 = r.left.unwrap();
            assert(is_avl(Some(p2)));
            assert(is_avl(Some(g2)));
            assert(ht(Some(g2)) == 1 + max_nat(ht(n.left), ht(cc.left)));
            assert(ht(Some(p2)) == 1 + max_nat(ht(cc.right), ht(rc.right)));
            assert(ht(Some(Box::new(r))) == 1 + max_nat(ht(Some(g2)), ht(Some(p2))));
        }
    }
}

/// What rebalancing after a deletion gives: a balanced subtree with the
/// same values in order, at most one lower than before the deletion.
pub proof fn lemma_avl_rebalance_delete<T: Ord + Copy>(n: AVLNode<T>)
    requires
        key_order::<T>(),
        is_avl(n.left),
        is_avl(n.right),
        avl_ordered(Some(Box::new(n))),
        -2 <= ht(n.left) - ht(n.right) <= 2,
        1 + max_nat(ht(n.left), ht(n.right)) <= i32::MAX,
    ensures
        ({
            let r = avl_rebalance_delete(n);
            &&& is_avl(Some(Box::new(r)))
            &&& avl_ordered(Some(Box::new(r)))
            &&& avl_values(Some(Box::new(r))) == avl_values(Some(Box::new(n)))
            &&& -1 <= ht(n.left) - ht(n.right) <= 1 ==> r.value == n.value && r.left == n.left
                && r.right == n.right && ht(Some(Box::new(r))) == 1 + max_nat(
                ht(n.left),
                ht(n.right),
            )
            &&& (ht(n.left) - ht(n.right) == 2 || ht(n.right) - ht(n.left) == 2) ==> max_nat(
                ht(n.left),
                ht(n.right),
            ) <= ht(Some(Box::new(r))) <= 1 + max_nat(ht(n.left), ht(n.right))
        }),
{
    lemma_key_order::<T>();
    lemma_stored_near_top::<T>(n);
    let c = avl_updated(n);
    lemma_congruent::<T>(c, n);
    lemma_avl_rotations::<T>(c);
    let r = avl_rebalance_delete(n);
    let balance = stored_height(c.left) - stored_height(c.right);
    if balance > 1 {
        let l = *n.left.unwrap();
        assert(ht(Some(Box::new(l))) == 1 + max_nat(ht(l.left), ht(l.right)));
        if stored_height(l.left) - stored_height(l.right) >= 0 {
            let g2 = r.right.unwrap();
            assert(is_avl(Some(g2)));
        } else {
            let cc = *l.right.unwrap();
            assert(is_avl(l.right));
            assert(ht(Some(Box::new(cc))) == 1 + max_nat(ht(cc.left), ht(cc.right)));
            let p2 = r.left.unwrap();
            let g2 = r.right.unwrap();
            assert(is_avl(Some(p2)));
            assert(is_avl(Some(g2)));
            assert(ht(Some(p2)) == 1 + max_nat(ht(l.left), ht(cc.left)));
            assert(ht(Some(g2)) == 1 + max_nat(ht(cc.right), ht(n.right)));
            assert(ht(Some(Box::new(r))) == 1 + max_nat(ht(Some(p2)), ht(Some(g2))));
        }
    } else if balance < -1 {
        let rc = *n.right.unwrap();
        assert(ht(Some(Box::new(rc))) == 1 + max_nat(ht(rc.left), ht(rc.right)));
        if stored_height(rc.left) - stored_height(rc.right) <= 0 {
            let g2 = r.left.unwrap();
            assert(is_avl(Some(g2)));
            assert(ht(Some(g2)) == 1 + max_nat(ht(n.left), ht(rc.left)));
            assert(ht(Some(Box::new(r))) == 1 + max_nat(ht(Some(g2)), ht(rc.right)));
        } else {
            let cc = *rc.left.unwrap();
            assert(is_avl(rc.left));
            assert(ht(Some(Box::new(cc))) == 1 + max_nat(ht(cc.left), ht(cc.right)));
            let p2 = r.right.unwrap();
            let g2 = r.left.unwrap();
            assert(is_avl(Some(p2)));
            assert(is_avl(Some(g2)));
            assert(ht(Some(g2)) == 1 + max_nat(ht(n.left), ht(cc.left)));
            assert(ht(Some(p2)) == 1 + max_nat(ht(cc.right), ht(rc.right)));
            assert(ht(Some(Box::new(r))) == 1 + max_nat(ht(Some(g2)), ht(Some(p2))));
        }
    }
}

/// Insertion keeps a valid subtree valid: the result holds the new value
/// besides the old ones and is at most one higher; a value that is already
/// there leaves the subtree as it is. Where the subtree grew, its root kept
/// its value and leans to the side that the new value went to.
pub proof fn lemma_avl_insert_node<T: Ord + Copy>(node: Option<Box<AVLNode<T>>>, value: T)
    requires
        avl_wf(node),
        ht(node) < i32::MAX,
    ensures
        ({
            let r = avl_insert_node(node, value);
            &&& avl_wf(r.0)
            &&& avl_values(r.0) == avl_values(node).insert(value)
            &&& r.1 == !avl_values(node).contains(value)
            &&& !r.1 ==> r.0 == node
            &&& r.0 is Some
            &&& ht(node) <= ht(r.0) <= ht(node) + 1
            &&& ht(r.0) == ht(node) + 1 ==> (node is Some ==> r.0.unwrap().value
                == node.unwrap().value) && (lt(value, r.0.unwrap().value) ==> ht(
                r.0.unwrap().left,
            ) == ht(r.0.unwrap().right) + 1) && (lt(r.0.unwrap().value, value) ==> ht(
                r.0.unwrap().right,
            ) == ht(r.0.unwrap().left) + 1)
        }),
    decreases node,
{
    lemma_key_order::<T>();
    match node {
        None => {
            let leaf = AVLNode { value, height: 1, left: None, right: None };
            lemma_unfold::<T, AVLNode<T>>(leaf);
            assert(avl_values(Some(Box::new(leaf))) =~= Set::<T>::empty().insert(value));
        },
        Some(n) => {
            lemma_unfold::<T, AVLNode<T>>(*n);
            if n.value == value {
                assert(avl_values(node).insert(value) =~= avl_values(node));
            } else if lt(value, n.value) {
                lemma_avl_insert_node(n.left, value);
                let (l, inserted) = avl_insert_node(n.left, value);
                if !inserted {
                    assert(avl_values(node).insert(value) =~= avl_values(node));
                } else {
                    let m = AVLNode { left: l, ..*n };
                    lemma_unfold::<T, AVLNode<T>>(m);
                    assert(avl_values(Some(Box::new(m))) =~= avl_values(node).insert(value));
                    if n.left is Some {
                        lemma_unfold::<T, AVLNode<T>>(*n.left.unwrap());
                    }
                    lemma_avl_rebalance_insert::<T>(m, value);
                }
            } else {
                lemma_avl_insert_node(n.right, value);
                let (rc, inserted) = avl_insert_node(n.right, value);
                if !inserted {
                    assert(avl_values(node).insert(value) =~= avl_values(node));
                } else {
                    let m = AVLNode { right: rc, ..*n };
                    lemma_unfold::<T, AVLNode<T>>(m);
                    assert(avl_values(Some(Box::new(m))) =~= avl_values(node).insert(value));
                    if n.right is Some {
                        lemma_unfold::<T, AVLNode<T>>(*n.right.unwrap());
                    }
                    lemma_avl_rebalance_insert::<T>(m, value);
                }
            }
        },
    }
}

/// Removing the largest value of a valid subtree leaves a valid subtree,
/// at most one lower, holding the other values; the value removed is the
/// largest one.
pub proof fn lemma_avl_remove_max<T: Ord + Copy>(n: AVLNode<T>)
    requires
        avl_wf(Some(Box::new(n))),
    ensures
        ({
            let r = avl_remove_max(n);
            &&& avl_wf(r.0)
            &&& avl_values(Some(Box::new(n))).contains(r.1)
            &&& avl_values(r.0) == avl_values(Some(Box::new(n))).remove(r.1)
            &&& forall|x: T| #[trigger]
                avl_values(Some(Box::new(n))).contains(x) ==> x == r.1 || lt(x, r.1)
            &&& ht(Some(Box::new(n))) - 1 <= ht(r.0) <= ht(Some(Box::new(n)))
        }),
    decreases n,
{
    lemma_key_order::<T>();
    lemma_unfold::<T, AVLNode<T>>(n);
    match n.right {
        None => {
            assert(avl_values(n.left) =~= avl_values(Some(Box::new(n))).remove(n.value));
        },
        Some(right) => {
            lemma_avl_remove_max::<T>(*right);
            let (rest, max) = avl_remove_max(*right);
            let m = AVLNode { right: rest, ..n };
            lemma_unfold::<T, AVLNode<T>>(m);
            assert(avl_values(n.right).contains(max));
            assert(avl_values(Some(Box::new(m))) =~= avl_values(Some(Box::new(n))).remove(max));
            assert forall|x: T| #[trigger]
                avl_values(Some(Box::new(n))).contains(x) implies x == max || lt(x, max) by {
                if avl_values(n.left).contains(x) {
                    assert(lt(x, n.value));
                }
            }
            lemma_avl_rebalance_delete::<T>(m);
        },
    }
}

/// Deletion at the node that holds the value: its only child, or, with two
/// children, the node with the in-order predecessor's value in its place.
proof fn lemma_avl_delete_here<T: Ord + Copy>(n: AVLNode<T>)
    requires
        avl_wf(Some(Box::new(n))),
    ensures
        ({
            let node = Some(Box::new(n));
            let r = avl_delete_node(node, n.value);
            &&& avl_wf(r.0)
            &&& avl_values(r.0) == avl_values(node).remove(n.value)
            &&& r.1
            &&& ht(node) - 1 <= ht(r.0) <= ht(node)
        }),
{
    lemma_key_order::<T>();
    lemma_unfold::<T, AVLNode<T>>(n);
    let node = Some(Box::new(n));
    let value = n.value;
    if n.left is Some && n.right is Some {
        lemma_avl_remove_max::<T>(*n.left.unwrap());
        let (rest, pred) = avl_remove_max(*n.left.unwrap());
        let m = AVLNode { left: rest, value: pred, ..n };
        lemma_unfold::<T, AVLNode<T>>(m);
        assert(avl_values(Some(Box::new(m))) =~= avl_values(node).remove(value));
        assert forall|x: T| #[trigger] avl_values(n.right).contains(x) implies lt(pred, x) by {
            assert(lt(value, x));
        }
        lemma_avl_rebalance_delete::<T>(m);
    } else if n.left is Some {
        assert(avl_values(n.left) =~= avl_values(node).remove(value));
    } else {
        assert(avl_values(n.right) =~= avl_values(node).remove(value));
    }
}

/// Deletion keeps a valid subtree valid: the result holds the old values
/// but the one deleted and is at most one lower; an absent value leaves
/// the subtree as it is.
#[verifier::rlimit(40)]
pub proof fn lemma_avl_delete_node<T: Ord + Copy>(node: Option<Box<AVLNode<T>>>, value: T)
    requires
        avl_wf(node),
    ensures
        ({
            let r = avl_delete_node(node, value);
            &&& avl_wf(r.0)
            &&& avl_values(r.0) == avl_values(node).remove(value)
            &&& r.1 == avl_values(node).contains(value)
            &&& !r.1 ==> r.0 == node
            &&& ht(node) - 1 <= ht(r.0) <= ht(node)
        }),
    decreases node,
{
    lemma_key_order::<T>();
    match node {
        None => {
            assert(avl_values(node).remove(value) =~= avl_values(node));
        },
        Some(n) => {
            lemma_unfold::<T, AVLNode<T>>(*n);
            if n.value == value {
                lemma_avl_delete_here::<T>(*n);
            } else if lt(value, n.value) {
                lemma_avl_delete_node(n.left, value);
                let (l, deleted) = avl_delete_node(n.left, value);
                if !deleted {
                    assert(avl_values(node).remove(value) =~= avl_values(node));
                } else {
                    let m = AVLNode { left: l, ..*n };
                    lemma_unfold::<T, AVLNode<T>>(m);
                    assert(avl_values(Some(Box::new(m))) =~= avl_values(node).remove(value));
                    lemma_avl_rebalance_delete::<T>(m);
                }
            } else {
                lemma_avl_delete_node(n.right, value);
                let (rc, deleted) = avl_delete_node(n.right, value);
                if !deleted {
                    assert(avl_values(node).remove(value) =~= avl_values(node));
                } else {
                    let m = AVLNode { right: rc, ..*n };
                    lemma_unfold::<T, AVLNode<T>>(m);
                    assert(avl_values(Some(Box::new(m))) =~= avl_values(node).remove(value));
                    lemma_avl_rebalance_delete::<T>(m);
                }
            }
        },
    }
}

/// Inserting a value that a search tree already holds changes nothing and
/// reports nothing new.
pub proof fn lemma_avl_insert_present<T: Ord + Copy>(node: Option<Box<AVLNode<T>>>, value: T)
    requires
        key_order::<T>(),
        avl_ordered(node),
        avl_values(node).contains(value),
    ensures
        avl_insert_node(node, value) == (node, false),
    decreases node,
{
    lemma_key_order::<T>();
    let n = node.unwrap();
    lemma_unfold::<T, AVLNode<T>>(*n);
    if n.value != value {
        if lt(value, n.value) {
            if avl_values(n.right).contains(value) {
                assert(lt(n.value, value));
            }
            lemma_avl_insert_present(n.left, value);
        } else {
            if avl_values(n.left).contains(value) {
                assert(lt(value, n.value));
            }
            lemma_avl_insert_present(n.right, value);
        }
    }
}

/// Inserting the same value twice: the second insertion leaves the tree
/// exactly as the first one left it, and reports that the value was
/// already there.
pub proof fn lemma_avl_insert_twice<T: Ord + Copy>(t: AvlTree<T>, value: T)
    requires
        t.wf(),
        t.spec_height() < i32::MAX,
    ensures
        ({
            let once = avl_insert_node(t.root, value).0;
            avl_insert_node(once, value) == (once, false)
        }),
{
    lemma_avl_insert_node::<T>(t.root, value);
    lemma_avl_insert_present::<T>(avl_insert_node(t.root, value).0, value);
}

/// Deleting a value that was just inserted into a tree that did not hold it
/// gives back a valid tree with the values the tree had before.
pub proof fn lemma_avl_insert_then_delete<T: Ord + Copy>(t: AvlTree<T>, value: T)
    requires
        t.wf(),
        t.spec_height() < i32::MAX,
        !t.values().contains(value),
    ensures
        ({
            let after = avl_delete_node(avl_insert_node(t.root, value).0, value).0;
            avl_wf(after) && avl_values(after) == t.values()
        }),
{
    lemma_avl_insert_node::<T>(t.root, value);
    lemma_avl_delete_node::<T>(avl_insert_node(t.root, value).0, value);
    assert(t.values().insert(value).remove(value) =~= t.values());
}

impl<T: Ord + Copy> Default for AvlTree<T> {
    /// An empty tree.
    fn default() -> (r: Self)
        ensures
            r.root is None,
    {
        AvlTree { root: None }
    }
}

impl<T: Ord + Copy> AvlTree<T> {
    /// The tree is a valid AVL search tree over a totally ordered key type.
    pub open spec fn wf(&self) -> bool {
        avl_wf(self.root)
    }

    /// The values held by the tree.
    pub open spec fn values(&self) -> Set<T> {
        avl_values(self.root)
    }

    pub fn new() -> (r: Self)
        requires
            key_order::<T>(),
        ensures
            r.wf(),
            r.root is None,
            r.values() == Set::<T>::empty(),
    {
        Self { root: None }
    }

    /// Whether `key` is held by the tree.
    pub fn contains(&self, key: T) -> (r: bool)
        requires
            self.wf(),
        ensures
            r == self.values().contains(key),
    {
        proof {
            lemma_key_order::<T>();
        }
        let mut cur: &Option<Box<AVLNode<T>>> = &self.root;
        loop
            invariant
                key_order::<T>(),
                avl_ordered(*cur),
                avl_values(self.root).contains(key) == avl_values(*cur).contains(key),
            decreases avl_size(*cur),
        {
            match cur {
                None => {
                    return false;
                },
                Some(nb) => {
                    proof {
                        lemma_key_order::<T>();
                        lemma_unfold::<T, AVLNode<T>>(**nb);
                    }
                    if less(&key, &nb.value) {
                        cur = &nb.left;
                    } else if less(&nb.value, &key) {
                        cur = &nb.right;
                    } else {
                        return true;
                    }
                },
            }
        }
    }

    /// The height recorded at the root of `node`; 0 for an empty subtree.
    fn height_of_node(node: &Option<Box<AVLNode<T>>>) -> (r: i32)
        ensures
            r == stored_height(*node),
    {
        match node {
            Some(n) => n.height,
            None => 0,
        }
    }

    /// Records at `node` one more than the larger recorded height of its
    /// children.
    fn update_height(node: &mut AVLNode<T>)
        requires
            stored_height(old(node).left) < i32::MAX,
            stored_height(old(node).right) < i32::MAX,
        ensures
            final(node).height == 1 + if stored_height(old(node).left) >= stored_height(
                old(node).right,
            ) {
                stored_height(old(node).left)
            } else {
                stored_height(old(node).right)
            },
            final(node).value == old(node).value,
            final(node).left == old(node).left,
            final(node).right == old(node).right,
            *final(node) == avl_updated(*old(node)),
    {
        let left_h = Self::height_of_node(&node.left);
        let right_h = Self::height_of_node(&node.right);
        node.height = (if left_h >= right_h {
            left_h
        } else {
            right_h
        }) + 1;
    }

    /// Recorded height of the left subtree minus that of the right subtree.
    fn balance_factor(node: &AVLNode<T>) -> (r: i32)
        requires
            0 <= stored_height(node.left),
            0 <= stored_height(node.right),
        ensures
            r == stored_height(node.left) - stored_height(node.right),
    {
        Self::height_of_node(&node.left) - Self::height_of_node(&node.right)
    }

    /// Single rotation for a left-left imbalance at `n`, followed by fresh
    /// heights for the two nodes that moved.
    fn rotate_ll(n: Box<AVLNode<T>>) -> (r: Box<AVLNode<T>>)
        requires
            n.left matches Some(p) && p.left is Some,
            0 <= stored_height(n.left.unwrap().left) < i32::MAX - 1,
            0 <= stored_height(n.left.unwrap().right) < i32::MAX - 1,
            0 <= stored_height(n.right) < i32::MAX - 1,
        ensures
            *r == avl_rot_ll(*n),
            avl_values(Some(r)) == avl_values(Some(n)),
            key_order::<T>() && avl_ordered(Some(n)) ==> avl_ordered(Some(r)),
    {
        let mut sub = Some(n);
        let path = vec![Dir::Left, Dir::Left];
        proof {
            assert(path@ == seq![Dir::Left, Dir::Left]);
            assert(path@.subrange(0, 0) == Seq::<Dir>::empty());
            lemma_subtree_at_two::<T, AVLNode<T>>(*n, Dir::Left, Dir::Left);
        }
        rotate::<T, AVLNode<T>>(&mut sub, &path, LocationRel::LL);
        let mut top = sub.unwrap();
        let mut grandparent = top.right.take().unwrap();
        Self::update_height(&mut grandparent);
        top.right = Some(grandparent);
        Self::update_height(&mut top);
        proof {
            let rot = rotated::<T, AVLNode<T>>(*n, LocationRel::LL);
            lemma_rotation_preserves_order::<T, AVLNode<T>>(*n, LocationRel::LL);
            lemma_congruent::<T>(*top.right.unwrap(), *rot.right.unwrap());
            lemma_congruent::<T>(*top, rot);
        }
        top
    }

    /// Single rotation for a right-right imbalance at `n`.
    fn rotate_rr(n: Box<AVLNode<T>>) -> (r: Box<AVLNode<T>>)
        requires
            n.right matches Some(p) && p.right is Some,
            0 <= stored_height(n.right.unwrap().left) < i32::MAX - 1,
            0 <= stored_height(n.right.unwrap().right) < i32::MAX - 1,
            0 <= stored_height(n.left) < i32::MAX - 1,
        ensures
            *r == avl_rot_rr(*n),
            avl_values(Some(r)) == avl_values(Some(n)),
            key_order::<T>() && avl_ordered(Some(n)) ==> avl_ordered(Some(r)),
    {
        let mut sub = Some(n);
        let path = vec![Dir::Right, Dir::Right];
        proof {
            assert(path@ == seq![Dir::Right, Dir::Right]);
            assert(path@.subrange(0, 0) == Seq::<Dir>::empty());
            lemma_subtree_at_two::<T, AVLNode<T>>(*n, Dir::Right, Dir::Right);
        }
        rotate::<T, AVLNode<T>>(&mut sub, &path, LocationRel::RR);
        let mut top = sub.unwrap();
        let mut grandparent = top.left.take().unwrap();
        Self::update_height(&mut grandparent);
        top.left = Some(grandparent);
        Self::update_height(&mut top);
        proof {
            let rot = rotated::<T, AVLNode<T>>(*n, LocationRel::RR);
            lemma_rotation_preserves_order::<T, AVLNode<T>>(*n, LocationRel::RR);
            lemma_congruent::<T>(*top.left.unwrap(), *rot.left.unwrap());
            lemma_congruent::<T>(*top, rot);
        }
        top
    }

    /// Double rotation for a left-right imbalance at `n`: the right child of
    /// the left child comes up.
    fn rotate_lr(n: Box<AVLNode<T>>) -> (r: Box<AVLNode<T>>)
        requires
            n.left matches Some(p) && p.right is Some,
            0 <= stored_height(n.left.unwrap().left) < i32::MAX - 1,
            0 <= stored_height(n.left.unwrap().right.unwrap().left) < i32::MAX - 1,
            0 <= stored_height(n.left.unwrap().right.unwrap().right) < i32::MAX - 1,
            0 <= stored_height(n.right) < i32::MAX - 1,
        ensures
            *r == avl_rot_lr(*n),
            avl_values(Some(r)) == avl_values(Some(n)),
            key_order::<T>() && avl_ordered(Some(n)) ==> avl_ordered(Some(r)),
    {
        let mut sub = Some(n);
        let path = vec![Dir::Left, Dir::Right];
        proof {
            assert(path@ == seq![Dir::Left, Dir::Right]);
            assert(path@.subrange(0, 0) == Seq::<Dir>::empty());
            lemma_subtree_at_two::<T, AVLNode<T>>(*n, Dir::Left, Dir::Right);
        }
        rotate::<T, AVLNode<T>>(&mut sub, &path, LocationRel::LR);
        let mut top = sub.unwrap();
        let mut left_child = top.left.take().unwrap();
        Self::update_height(&mut left_child);
        top.left = Some(left_child);
        let mut grandparent = top.right.take().unwrap();
        Self::update_height(&mut grandparent);
        top.right = Some(grandparent);
        Self::update_height(&mut top);
        proof {
            let rot = rotated::<T, AVLNode<T>>(*n, LocationRel::LR);
            lemma_rotation_preserves_order::<T, AVLNode<T>>(*n, LocationRel::LR);
            lemma_congruent::<T>(*top.left.unwrap(), *rot.left.unwrap());
            lemma_congruent::<T>(*top.right.unwrap(), *rot.right.unwrap());
            lemma_congruent::<T>(*top, rot);
        }
        top
    }

    /// Double rotation for a right-left imbalance at `n`: the left child of
    /// the right child comes up.
    fn rotate_rl(n: Box<AVLNode<T>>) -> (r: Box<AVLNode<T>>)
        requires
            n.right matches Some(p) && p.left is Some,
            0 <= stored_height(n.right.unwrap().right) < i32::MAX - 1,
            0 <= stored_height(n.right.unwrap().left.unwrap().left) < i32::MAX - 1,
            0 <= stored_height(n.right.unwrap().left.unwrap().right) < i32::MAX - 1,
            0 <= stored_height(n.left) < i32::MAX - 1,
        ensures
            *r == avl_rot_rl(*n),
            avl_values(Some(r)) == avl_values(Some(n)),
            key_order::<T>() && avl_ordered(Some(n)) ==> avl_ordered(Some(r)),
    {
        let mut sub = Some(n);
        let path = vec![Dir::Right, Dir::Left];
        proof {
            assert(path@ == seq![Dir::Right, Dir::Left]);
            assert(path@.subrange(0, 0) == Seq::<Dir>::empty());
            lemma_subtree_at_two::<T, AVLNode<T>>(*n, Dir::Right, Dir::Left);
        }
        rotate::<T, AVLNode<T>>(&mut sub, &path, LocationRel::RL);
        let mut top = sub.unwrap();
        let mut right_child = top.right.take().unwrap();
        Self::update_height(&mut right_child);
        top.right = Some(right_child);
        let mut grandparent = top.left.take().unwrap();
        Self::update_height(&mut grandparent);
        top.left = Some(grandparent);
        Self::update_height(&mut top);
        proof {
            let rot = rotated::<T, AVLNode<T>>(*n, LocationRel::RL);
            lemma_rotation_preserves_order::<T, AVLNode<T>>(*n, LocationRel::RL);
            lemma_congruent::<T>(*top.left.unwrap(), *rot.left.unwrap());
            lemma_congruent::<T>(*top.right.unwrap(), *rot.right.unwrap());
            lemma_congruent::<T>(*top, rot);
        }
        top
    }

    /// Rebalances `n` after a value went into one of its subtrees, with the
    /// case analysis of insertion: the side of the imbalance and the side of
    /// the new value below the taller child choose the rotation.
    fn rebalance_insert(n: Box<AVLNode<T>>, value: T) -> (r: Box<AVLNode<T>>)
        requires
            key_order::<T>(),
            is_avl(n.left),
            is_avl(n.right),
            avl_ordered(Some(n)),
            -2 <= ht(n.left) - ht(n.right) <= 2,
            1 + max_nat(ht(n.left), ht(n.right)) <= i32::MAX,
            ht(n.left) == ht(n.right) + 2 ==> (n.left matches Some(l) && l.value != value && (lt(
                value,
                l.value,
            ) ==> ht(l.left) == ht(l.right) + 1) && (lt(l.value, value) ==> ht(l.right) == ht(
                l.left,
            ) + 1)),
            ht(n.right) == ht(n.left) + 2 ==> (n.right matches Some(rc) && rc.value != value && (
            lt(value, rc.value) ==> ht(rc.left) == ht(rc.right) + 1) && (lt(rc.value, value)
                ==> ht(rc.right) == ht(rc.left) + 1)),
        ensures
            *r == avl_rebalance_insert(*n, value),
            is_avl(Some(r)),
            avl_ordered(Some(r)),
            avl_values(Some(r)) == avl_values(Some(n)),
            -1 <= ht(n.left) - ht(n.right) <= 1 ==> r.value == n.value && r.left == n.left
                && r.right == n.right && ht(Some(r)) == 1 + max_nat(ht(n.left), ht(n.right)),
            (ht(n.left) - ht(n.right) == 2 || ht(n.right) - ht(n.left) == 2) ==> ht(Some(r))
                == max_nat(ht(n.left), ht(n.right)),
    {
        proof {
            lemma_stored_near_top::<T>(*n);
            lemma_avl_rebalance_insert::<T>(*n, value);
        }
        let mut current = n;
        Self::update_height(&mut current);
        let balance = Self::balance_factor(&current);
        if balance > 1 {
            let left_value = current.left.as_ref().unwrap().value;
            if less(&value, &left_value) {
                // LL
                return Self::rotate_ll(current);
            } else if less(&left_value, &value) {
                // LR
                return Self::rotate_lr(current);
            }
        } else if balance < -1 {
            let right_value = current.right.as_ref().unwrap().value;
            if less(&right_value, &value) {
                // RR
                return Self::rotate_rr(current);
            } else if less(&value, &right_value) {
                // RL
                return Self::rotate_rl(current);
            }
        }
        current
    }

    /// Inserts `value` into the subtree `node`; the flag tells whether it was
    /// new.
    #[verifier::rlimit(40)]
    fn insert_node(node: Option<Box<AVLNode<T>>>, value: T) -> (r: (Option<Box<AVLNode<T>>>, bool))
        requires
            avl_wf(node),
            ht(node) < i32::MAX,
        ensures
            r == avl_insert_node(node, value),
            avl_wf(r.0),
            avl_values(r.0) == avl_values(node).insert(value),
            r.1 == !avl_values(node).contains(value),
            !r.1 ==> r.0 == node,
            r.0 is Some,
            ht(node) <= ht(r.0) <= ht(node) + 1,
            ht(r.0) == ht(node) + 1 ==> (node is Some ==> r.0.unwrap().value == node.unwrap().value)
                && (lt(value, r.0.unwrap().value) ==> ht(r.0.unwrap().left) == ht(
                r.0.unwrap().right,
            ) + 1) && (lt(r.0.unwrap().value, value) ==> ht(r.0.unwrap().right) == ht(
                r.0.unwrap().left,
            ) + 1),
        decreases node,
    {
        proof {
            lemma_key_order::<T>();
            lemma_avl_insert_node::<T>(node, value);
        }
        match node {
            None => {
                let leaf = AVLNode { value, height: 1, left: None, right: None };
                (Some(Box::new(leaf)), true)
            },
            Some(n) => {
                let mut n = n;
                let ghost old_n = *n;
                proof {
                    lemma_unfold::<T, AVLNode<T>>(old_n);
                }
                if same(&n.value, &value) {
                    return (Some(n), false);
                } else if less(&value, &n.value) {
                    let (l, inserted) = Self::insert_node(n.left.take(), value);
                    n.left = l;
                    if !inserted {
                        return (Some(n), false);
                    }
                    proof {
                        lemma_unfold::<T, AVLNode<T>>(*n);
                        assert(old_n.left is Some ==> avl_values(old_n.left).contains(
                            old_n.left.unwrap().value,
                        )) by {
                            if old_n.left is Some {
                                lemma_unfold::<T, AVLNode<T>>(*old_n.left.unwrap());
                            }
                        }
                    }
                    (Some(Self::rebalance_insert(n, value)), true)
                } else {
                    let (rc, inserted) = Self::insert_node(n.right.take(), value);
                    n.right = rc;
                    if !inserted {
                        return (Some(n), false);
                    }
                    proof {
                        lemma_unfold::<T, AVLNode<T>>(*n);
                        assert(old_n.right is Some ==> avl_values(old_n.right).contains(
                            old_n.right.unwrap().value,
                        )) by {
                            if old_n.right is Some {
                                lemma_unfold::<T, AVLNode<T>>(*old_n.right.unwrap());
                            }
                        }
                    }
                    (Some(Self::rebalance_insert(n, value)), true)
                }
            },
        }
    }

    /// Rebalances `n` after a value left one of its subtrees, with the case
    /// analysis of deletion: the side of the imbalance and the balance of the
    /// taller child choose the rotation.
    fn rebalance_delete(n: Box<AVLNode<T>>) -> (r: Box<AVLNode<T>>)
        requires
            key_order::<T>(),
            is_avl(n.left),
            is_avl(n.right),
            avl_ordered(Some(n)),
            -2 <= ht(n.left) - ht(n.right) <= 2,
            1 + max_nat(ht(n.left), ht(n.right)) <= i32::MAX,
        ensures
            *r == avl_rebalance_delete(*n),
            is_avl(Some(r)),
            avl_ordered(Some(r)),
            avl_values(Some(r)) == avl_values(Some(n)),
            -1 <= ht(n.left) - ht(n.right) <= 1 ==> r.value == n.value && r.left == n.left
                && r.right == n.right && ht(Some(r)) == 1 + max_nat(ht(n.left), ht(n.right)),
            (ht(n.left) - ht(n.right) == 2 || ht(n.right) - ht(n.left) == 2) ==> max_nat(
                ht(n.left),
                ht(n.right),
            ) <= ht(Some(r)) <= 1 + max_nat(ht(n.left), ht(n.right)),
    {
        proof {
            lemma_stored_near_top::<T>(*n);
            lemma_avl_rebalance_delete::<T>(*n);
        }
        let mut current = n;
        Self::update_height(&mut current);
        let balance = Self::balance_factor(&current);
        if balance > 1 {
            let left_balance = Self::balance_factor(current.left.as_ref().unwrap());
            if left_balance >= 0 {
                // LL
                return Self::rotate_ll(current);
            } else {
                // LR
                return Self::rotate_lr(current);
            }
        } else if balance < -1 {
            let right_balance = Self::balance_factor(current.right.as_ref().unwrap());
            if right_balance <= 0 {
                // RR
                return Self::rotate_rr(current);
            } else {
                // RL
                return Self::rotate_rl(current);
            }
        }
        current
    }

    /// Removes the largest value of the subtree `n`, which is the node
    /// reached by going right as long as possible; that node is replaced by
    /// its left child. Returns the rest of the subtree and the value.
    fn remove_max(n: Box<AVLNode<T>>) -> (r: (Option<Box<AVLNode<T>>>, T))
        requires
            avl_wf(Some(n)),
        ensures
            r == avl_remove_max(*n),
            avl_wf(r.0),
            avl_values(Some(n)).contains(r.1),
            avl_values(r.0) == avl_values(Some(n)).remove(r.1),
            forall|x: T| #[trigger] avl_values(Some(n)).contains(x) ==> x == r.1 || lt(x, r.1),
            ht(Some(n)) - 1 <= ht(r.0) <= ht(Some(n)),
        decreases n,
    {
        proof {
            lemma_key_order::<T>();
            lemma_unfold::<T, AVLNode<T>>(*n);
            lemma_avl_remove_max::<T>(*n);
        }
        let mut n = n;
        match n.right.take() {
            None => {
                (n.left.take(), n.value)
            },
            Some(right) => {
                let (rest, max) = Self::remove_max(right);
                n.right = rest;
                proof {
                    lemma_unfold::<T, AVLNode<T>>(*n);
                }
                (Some(Self::rebalance_delete(n)), max)
            },
        }
    }

    /// Deletes `value` from the subtree `node`; the flag tells whether it was
    /// there. A node with two children takes the value of its in-order
    /// predecessor, whose node is removed instead.
    #[verifier::rlimit(40)]
    fn delete_node(node: Option<Box<AVLNode<T>>>, value: T) -> (r: (Option<Box<AVLNode<T>>>, bool))
        requires
            avl_wf(node),
        ensures
            r == avl_delete_node(node, value),
            avl_wf(r.0),
            avl_values(r.0) == avl_values(node).remove(value),
            r.1 == avl_values(node).contains(value),
            !r.1 ==> r.0 == node,
            ht(node) - 1 <= ht(r.0) <= ht(node),
        decreases node,
    {
        proof {
            lemma_key_order::<T>();
            lemma_avl_delete_node::<T>(node, value);
        }
        match node {
            None => {
                (None, false)
            },
            Some(n) => {
                let mut n = n;
                let ghost old_n = *n;
                proof {
                    lemma_unfold::<T, AVLNode<T>>(old_n);
                }
                if same(&n.value, &value) {
                    if n.left.is_some() && n.right.is_some() {
                        let (rest, pred) = Self::remove_max(n.left.take().unwrap());
                        n.left = rest;
                        n.value = pred;
                        proof {
                            lemma_unfold::<T, AVLNode<T>>(*n);
                                assert forall|x: T| #[trigger]
                                avl_values(old_n.right).contains(x) implies lt(pred, x) by {
                                assert(lt(value, x));
                            }
                        }
                        (Some(Self::rebalance_delete(n)), true)
                    } else {
                        let child = if n.left.is_some() {
                            n.left.take()
                        } else {
                            n.right.take()
                        };
                        (child, true)
                    }
                } else if less(&value, &n.value) {
                    let (l, deleted) = Self::delete_node(n.left.take(), value);
                    n.left = l;
                    if !deleted {
                        return (Some(n), false);
                    }
                    proof {
                        lemma_unfold::<T, AVLNode<T>>(*n);
                    }
                    (Some(Self::rebalance_delete(n)), true)
                } else {
                    let (rc, deleted) = Self::delete_node(n.right.take(), value);
                    n.right = rc;
                    if !deleted {
                        return (Some(n), false);
                    }
                    proof {
                        lemma_unfold::<T, AVLNode<T>>(*n);
                    }
                    (Some(Self::rebalance_delete(n)), true)
                }
            },
        }
    }

    /// The height of the tree.
    pub open spec fn spec_height(&self) -> nat {
        ht(self.root)
    }

    /// Inserts `value`; returns whether it was new. A value that is already
    /// present leaves the tree as it was.
    pub fn insert(&mut self, value: T) -> (r: bool)
        requires
            old(self).wf(),
            old(self).spec_height() < i32::MAX,
        ensures
            final(self).root == avl_insert_node(old(self).root, value).0,
            final(self).wf(),
            final(self).values() == old(self).values().insert(value),
            r == !old(self).values().contains(value),
            !r ==> *final(self) == *old(self),
            old(self).spec_height() <= final(self).spec_height() <= old(self).spec_height() + 1,
    {
        let (root, inserted) = Self::insert_node(self.root.take(), value);
        self.root = root;
        inserted
    }

    /// Deletes `value`; returns whether it was present. An absent value
    /// leaves the tree as it was.
    pub fn delete(&mut self, value: T) -> (r: bool)
        requires
            old(self).wf(),
        ensures
            final(self).root == avl_delete_node(old(self).root, value).0,
            final(self).wf(),
            final(self).values() == old(self).values().remove(value),
            r == old(self).values().contains(value),
            !r ==> *final(self) == *old(self),
            old(self).spec_height() - 1 <= final(self).spec_height() <= old(self).spec_height(),
    {
        let (root, deleted) = Self::delete_node(self.root.take(), value);
        self.root = root;
        deleted
    }

    /// Recomputes the recorded height of every node of `node` from the
    /// shape of the subtree; returns the height of `node`.
    fn recompute_heights(node: &mut Option<Box<AVLNode<T>>>) -> (r: i32)
        requires
            ht(*old(node)) <= i32::MAX,
        ensures
            *final(node) == with_true_heights(*old(node)),
            r == ht(*old(node)),
        decreases *old(node),
    {
        match node.take() {
            Some(mut rc) => {
                let left_h = Self::recompute_heights(&mut rc.left);
                let right_h = Self::recompute_heights(&mut rc.right);
                let h = (if left_h >= right_h {
                    left_h
                } else {
                    right_h
                }) + 1;
                rc.height = h;
                *node = Some(rc);
                h
            },
            None => 0,
        }
    }
}

} // verus!

verus! {

impl<T: Ord + Copy> TreeOps<T> for AvlTree<T> {
    open spec fn spec_wf(&self) -> bool {
        self.wf()
    }

    open spec fn spec_values(&self) -> Set<T> {
        self.values()
    }

    open spec fn spec_inorder(&self) -> Seq<T> {
        inorder::<T, AVLNode<T>>(self.root)
    }

    open spec fn spec_leaf_count(&self) -> nat {
        leaf_count::<T, AVLNode<T>>(self.root)
    }

    open spec fn spec_tree_height(&self) -> nat {
        tree_height::<T, AVLNode<T>>(self.root)
    }

    open spec fn spec_room_for(&self, n: nat) -> bool {
        self.spec_height() + n <= i32::MAX
    }

    open spec fn spec_insert_all(&self, v: Seq<T>) -> Self {
        AvlTree { root: avl_insert_all(self.root, v) }
    }

    open spec fn spec_delete_all(&self, v: Seq<T>) -> Self {
        AvlTree { root: avl_delete_all(self.root, v) }
    }

    fn insert(&mut self, v: Vec<T>) -> (r: Vec<bool>) {
        let ghost start = self.values();
        let mut flags: Vec<bool> = Vec::new();
        let mut i: usize = 0;
        while i < v.len()
            invariant
                self.wf(),
                i <= v.len(),
                self.spec_height() <= old(self).spec_height() + i,
                old(self).spec_height() + v.len() <= i32::MAX,
                start == old(self).values(),
                self.root == avl_insert_all(old(self).root, v@.subrange(0, i as int)),
                self.values() == start.union(v@.subrange(0, i as int).to_set()),
                flags.len() == i,
                forall|k: int|
                    0 <= k < i ==> #[trigger] flags@[k] == !start.union(
                        v@.subrange(0, k).to_set(),
                    ).contains(v@[k]),
            decreases v.len() - i,
        {
            let x = v[i];
            let inserted = AvlTree::insert(self, x);
            flags.push(inserted);
            proof {
                assert(v@.subrange(0, i + 1) == v@.subrange(0, i as int).push(x));
                assert(v@.subrange(0, i + 1).drop_last() == v@.subrange(0, i as int));
                v@.subrange(0, i as int).lemma_push_to_set_commute(x);
                assert(start.union(v@.subrange(0, i + 1).to_set()) =~= start.union(
                    v@.subrange(0, i as int).to_set(),
                ).insert(x));
            }
            i = i + 1;
        }
        proof {
            assert(v@.subrange(0, v.len() as int) == v@);
        }
        flags
    }

    fn delete(&mut self, v: Vec<T>) -> (r: Vec<bool>) {
        let ghost start = self.values();
        let mut flags: Vec<bool> = Vec::new();
        let mut i: usize = 0;
        while i < v.len()
            invariant
                self.wf(),
                i <= v.len(),
                start == old(self).values(),
                self.root == avl_delete_all(old(self).root, v@.subrange(0, i as int)),
                self.values() == start.difference(v@.subrange(0, i as int).to_set()),
                flags.len() == i,
                forall|k: int|
                    0 <= k < i ==> #[trigger] flags@[k] == start.difference(
                        v@.subrange(0, k).to_set(),
                    ).contains(v@[k]),
            decreases v.len() - i,
        {
            let x = v[i];
            let deleted = AvlTree::delete(self, x);
            flags.push(deleted);
            proof {
                assert(v@.subrange(0, i + 1) == v@.subrange(0, i as int).push(x));
                assert(v@.subrange(0, i + 1).drop_last() == v@.subrange(0, i as int));
                v@.subrange(0, i as int).lemma_push_to_set_commute(x);
                assert(start.difference(v@.subrange(0, i + 1).to_set()) =~= start.difference(
                    v@.subrange(0, i as int).to_set(),
                ).remove(x));
            }
            i = i + 1;
        }
        proof {
            assert(v@.subrange(0, v.len() as int) == v@);
        }
        flags
    }

    fn count_leaves(&self) -> (r: usize) {
        count_leaves::<T, AVLNode<T>>(&self.root)
    }

    fn height(&self) -> (r: usize) {
        height::<T, AVLNode<T>>(&self.root)
    }

    fn inorder_traversal(&self) -> (r: Vec<T>) {
        proof {
            lemma_inorder_sorted::<T, AVLNode<T>>(self.root);
        }
        inorder_traversal::<T, AVLNode<T>>(&self.root)
    }

    fn is_tree_empty(&self) -> (r: bool) {
        proof {
            if self.root is Some {
                let b = self.root.unwrap();
                lemma_unfold::<T, AVLNode<T>>(*b);
                assert(self.values().contains(b.value));
            }
        }
        self.root.is_none()
    }

    fn clear(&mut self) {
        self.root = None;
    }
}

} // verus!
