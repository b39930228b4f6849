use vstd::prelude::*;

use crate::order::{key_order, lemma_key_order, less, lt, same};

verus! {

/// A step from a node down to one of its children. A node of a tree is named
/// by the sequence of steps that leads to it from the root.
#[derive(Clone, Copy, Debug, PartialEq, Eq, Structural)]
pub enum Dir {
    Left,
    Right,
}

/// Where a key belongs in a search tree.
#[derive(Debug)]
pub enum InsertionPoint<NRef> {
    /// The tree is empty: the new node becomes the root.
    AsRoot,
    /// The key is already held by this node.
    Existing(NRef),
    /// The key goes in as the left child of this node.
    AtLeftOf(NRef),
    /// The key goes in as the right child of this node.
    AtRightOf(NRef),
}

/// How a node hangs below its grandparent: the first letter tells on which
/// side of the grandparent the parent is, the second on which side of the
/// parent the node is.
#[derive(Debug, PartialEq, Eq, Structural)]
pub enum LocationRel {
    LL,
    RR,
    LR,
    RL,
}

/// The colour under which a node is displayed.
#[derive(Debug, Clone, Copy, PartialEq, Eq, Structural)]
pub enum DisplayColor {
    Red,
    Black,
}

/// A node of a binary search tree whose children are owned boxes.
pub trait TreeNode<T>: Sized {
    spec fn spec_value(&self) -> T;

    spec fn spec_left(&self) -> Option<Box<Self>>;

    spec fn spec_right(&self) -> Option<Box<Self>>;

    /// This node with its left child replaced.
    spec fn spec_with_left(&self, l: Option<Box<Self>>) -> Self;

    /// This node with its right child replaced.
    spec fn spec_with_right(&self, r: Option<Box<Self>>) -> Self;

    /// Number of nodes of the subtree rooted here.
    spec fn spec_size(&self) -> nat;

    /// The colour shown for this node, if the tree has colours.
    spec fn spec_color(&self) -> Option<DisplayColor>;

    /// The stored height shown for this node, if the tree keeps heights.
    spec fn spec_stored_height(&self) -> Option<usize>;

    proof fn lemma_children_smaller(&self)
        ensures
            self.spec_size() > 0,
            (match self.spec_left() {
                Some(l) => l.spec_size() < self.spec_size(),
                None => true,
            }),
            (match self.spec_right() {
                Some(r) => r.spec_size() < self.spec_size(),
                None => true,
            }),
    ;

    proof fn lemma_with_laws(&self, a: Option<Box<Self>>, b: Option<Box<Self>>)
        ensures
            self.spec_with_left(a).spec_left() == a,
            self.spec_with_left(a).spec_right() == self.spec_right(),
            self.spec_with_left(a).spec_value() == self.spec_value(),
            self.spec_with_right(b).spec_right() == b,
            self.spec_with_right(b).spec_left() == self.spec_left(),
            self.spec_with_right(b).spec_value() == self.spec_value(),
            self.spec_with_left(a).spec_with_left(b) == self.spec_with_left(b),
            self.spec_with_right(a).spec_with_right(b) == self.spec_with_right(b),
            self.spec_with_left(a).spec_with_right(b) == self.spec_with_right(b).spec_with_left(a),
            self.spec_with_left(self.spec_left()) == *self,
            self.spec_with_right(self.spec_right()) == *self,
            self.spec_with_left(a).spec_color() == self.spec_color(),
            self.spec_with_left(a).spec_stored_height() == self.spec_stored_height(),
            self.spec_with_right(b).spec_color() == self.spec_color(),
            self.spec_with_right(b).spec_stored_height() == self.spec_stored_height(),
    ;

    fn value(&self) -> (r: &T)
        ensures
            *r == self.spec_value(),
    ;

    fn left(&self) -> (r: &Option<Box<Self>>)
        ensures
            *r == self.spec_left(),
    ;

    fn right(&self) -> (r: &Option<Box<Self>>)
        ensures
            *r == self.spec_right(),
    ;

    fn color(&self) -> (r: Option<DisplayColor>)
        ensures
            r == self.spec_color(),
    ;

    fn height(&self) -> (r: Option<usize>)
        ensures
            r == self.spec_stored_height(),
    ;

    fn left_mut(&mut self) -> (r: &mut Option<Box<Self>>)
        ensures
            *r == old(self).spec_left(),
            *final(self) == old(self).spec_with_left(*final(r)),
    ;

    fn right_mut(&mut self) -> (r: &mut Option<Box<Self>>)
        ensures
            *r == old(self).spec_right(),
            *final(self) == old(self).spec_with_right(*final(r)),
    ;
}

/// The operations that both balanced trees offer.
pub trait TreeOps<T: Ord + Copy>: Sized {
    /// The tree keeps its invariant.
    spec fn spec_wf(&self) -> bool;

    /// The values held by the tree.
    spec fn spec_values(&self) -> Set<T>;

    /// The values of the tree in in-order.
    spec fn spec_inorder(&self) -> Seq<T>;

    spec fn spec_leaf_count(&self) -> nat;

    spec fn spec_tree_height(&self) -> nat;

    /// Inserting `n` more values keeps every recorded number in range.
    spec fn spec_room_for(&self, n: nat) -> bool;

    /// The tree after inserting the values of `v` one after the other.
    spec fn spec_insert_all(&self, v: Seq<T>) -> Self;

    /// The tree after deleting the values of `v` one after the other.
    spec fn spec_delete_all(&self, v: Seq<T>) -> Self;

    /// Inserts the values one after the other; entry `i` of the result tells
    /// whether `v[i]` was new when its turn came.
    fn insert(&mut self, v: Vec<T>) -> (r: Vec<bool>)
        requires
            old(self).spec_wf(),
            old(self).spec_room_for(v.len() as nat),
        ensures
            *final(self) == old(self).spec_insert_all(v@),
            final(self).spec_wf(),
            final(self).spec_values() == old(self).spec_values().union(v@.to_set()),
            r.len() == v.len(),
            forall|i: int|
                0 <= i < v.len() ==> #[trigger] r@[i] == !old(self).spec_values().union(
                    v@.subrange(0, i).to_set(),
                ).contains(v@[i]),
    ;

    /// Deletes the values one after the other; entry `i` of the result tells
    /// whether `v[i]` was present when its turn came.
    fn delete(&mut self, v: Vec<T>) -> (r: Vec<bool>)
        requires
            old(self).spec_wf(),
        ensures
            *final(self) == old(self).spec_delete_all(v@),
            final(self).spec_wf(),
            final(self).spec_values() == old(self).spec_values().difference(v@.to_set()),
            r.len() == v.len(),
            forall|i: int|
                0 <= i < v.len() ==> #[trigger] r@[i] == old(self).spec_values().difference(
                    v@.subrange(0, i).to_set(),
                ).contains(v@[i]),
    ;

    fn count_leaves(&self) -> (r: usize)
        requires
            self.spec_wf(),
            self.spec_leaf_count() <= usize::MAX,
        ensures
            r == self.spec_leaf_count(),
    ;

    fn height(&self) -> (r: usize)
        requires
            self.spec_wf(),
            self.spec_tree_height() <= usize::MAX,
        ensures
            r == self.spec_tree_height(),
    ;

    /// The values in in-order, which is increasing order.
    fn inorder_traversal(&self) -> (r: Vec<T>)
        requires
            self.spec_wf(),
        ensures
            r@ == self.spec_inorder(),
            r@.to_set() == self.spec_values(),
            forall|i: int, j: int| 0 <= i < j < r.len() ==> lt(#[trigger] r@[i], #[trigger] r@[j]),
    ;

    fn is_tree_empty(&self) -> (r: bool)
        requires
            self.spec_wf(),
        ensures
            r == (self.spec_values() == Set::<T>::empty()),
    ;

    fn clear(&mut self)
        requires
            old(self).spec_wf(),
        ensures
            final(self).spec_wf(),
            final(self).spec_values() == Set::<T>::empty(),
    ;
}

// ---------------------------------------------------------------------------
// The mathematical model of a tree of boxed nodes.
// ---------------------------------------------------------------------------

pub open spec fn size_of<T, N: TreeNode<T>>(node: Option<Box<N>>) -> nat {
    match node {
        None => 0,
        Some(n) => n.spec_size(),
    }
}

/// The child of `n` in direction `d`.
pub open spec fn child<T, N: TreeNode<T>>(n: N, d: Dir) -> Option<Box<N>> {
    match d {
        Dir::Left => n.spec_left(),
        Dir::Right => n.spec_right(),
    }
}

/// `n` with its child in direction `d` replaced by `c`.
pub open spec fn with_child<T, N: TreeNode<T>>(n: N, d: Dir, c: Option<Box<N>>) -> N {
    match d {
        Dir::Left => n.spec_with_left(c),
        Dir::Right => n.spec_with_right(c),
    }
}

/// The set of values held by a subtree.
pub open spec fn tree_set<T, N: TreeNode<T>>(node: Option<Box<N>>) -> Set<T>
    decreases size_of::<T, N>(node),
{
    match node {
        None => Set::empty(),
        Some(n) => {
            proof {
                n.lemma_children_smaller();
            }
            tree_set::<T, N>(n.spec_left()).union(tree_set::<T, N>(n.spec_right())).insert(
                n.spec_value(),
            )
        },
    }
}

/// The nodes of a subtree as what they show: value, colour and recorded
/// height.
pub open spec fn label_set<T, N: TreeNode<T>>(node: Option<Box<N>>) -> Set<
    (T, Option<DisplayColor>, Option<usize>),
>
    decreases size_of::<T, N>(node),
{
    match node {
        None => Set::empty(),
        Some(n) => {
            proof {
                n.lemma_children_smaller();
            }
            label_set::<T, N>(n.spec_left()).union(label_set::<T, N>(n.spec_right())).insert(
                (n.spec_value(), n.spec_color(), n.spec_stored_height()),
            )
        },
    }
}

/// Every value of a left subtree is below its node, every value of a right
/// subtree above it, at every node.
pub open spec fn is_bst<T: Ord, N: TreeNode<T>>(node: Option<Box<N>>) -> bool
    decreases size_of::<T, N>(node),
{
    match node {
        None => true,
        Some(n) => {
            proof {
                n.lemma_children_smaller();
            }
            &&& is_bst::<T, N>(n.spec_left())
            &&& is_bst::<T, N>(n.spec_right())
            &&& forall|x: T| #[trigger]
                tree_set::<T, N>(n.spec_left()).contains(x) ==> lt(x, n.spec_value())
            &&& forall|x: T| #[trigger]
                tree_set::<T, N>(n.spec_right()).contains(x) ==> lt(n.spec_value(), x)
        },
    }
}

/// The values of a subtree in in-order: left subtree, node, right subtree.
pub open spec fn inorder<T, N: TreeNode<T>>(node: Option<Box<N>>) -> Seq<T>
    decreases size_of::<T, N>(node),
{
    match node {
        None => Seq::empty(),
        Some(n) => {
            proof {
                n.lemma_children_smaller();
            }
            inorder::<T, N>(n.spec_left()).push(n.spec_value()).add(
                inorder::<T, N>(n.spec_right()),
            )
        },
    }
}

/// Number of nodes on the longest path from the root down to a leaf.
pub open spec fn tree_height<T, N: TreeNode<T>>(node: Option<Box<N>>) -> nat
    decreases size_of::<T, N>(node),
{
    match node {
        None => 0,
        Some(n) => {
            proof {
                n.lemma_children_smaller();
            }
            let lh = tree_height::<T, N>(n.spec_left());
            let rh = tree_height::<T, N>(n.spec_right());
            1 + if lh >= rh {
                lh
            } else {
                rh
            }
        },
    }
}

/// Number of nodes without children.
pub open spec fn leaf_count<T, N: TreeNode<T>>(node: Option<Box<N>>) -> nat
    decreases size_of::<T, N>(node),
{
    match node {
        None => 0,
        Some(n) => {
            proof {
                n.lemma_children_smaller();
            }
            if n.spec_left() is None && n.spec_right() is None {
                1
            } else {
                leaf_count::<T, N>(n.spec_left()) + leaf_count::<T, N>(n.spec_right())
            }
        },
    }
}

/// The subtree reached by following `path` from `node`; `None` when the path
/// leaves the tree.
pub open spec fn subtree_at<T, N: TreeNode<T>>(node: Option<Box<N>>, path: Seq<Dir>) -> Option<
    Box<N>,
>
    decreases path.len(),
{
    if path.len() == 0 {
        node
    } else {
        match node {
            None => None,
            Some(n) => subtree_at::<T, N>(child::<T, N>(*n, path[0]), path.drop_first()),
        }
    }
}

/// `node` with the subtree at `path` replaced by `new`.
pub open spec fn replace_at<T, N: TreeNode<T>>(
    node: Option<Box<N>>,
    path: Seq<Dir>,
    new: Option<Box<N>>,
) -> Option<Box<N>>
    decreases path.len(),
{
    if path.len() == 0 {
        new
    } else {
        match node {
            None => None,
            Some(n) => Some(
                Box::new(
                    with_child::<T, N>(
                        *n,
                        path[0],
                        replace_at::<T, N>(child::<T, N>(*n, path[0]), path.drop_first(), new),
                    ),
                ),
            ),
        }
    }
}

/// The relation of the node at `path` to its grandparent.
pub open spec fn rel_of(path: Seq<Dir>) -> Option<LocationRel> {
    if path.len() < 2 {
        None
    } else {
        let p = path[path.len() - 2];
        let n = path[path.len() - 1];
        Some(
            if p == Dir::Left && n == Dir::Left {
                LocationRel::LL
            } else if p == Dir::Right && n == Dir::Right {
                LocationRel::RR
            } else if p == Dir::Left {
                LocationRel::LR
            } else {
                LocationRel::RL
            },
        )
    }
}

/// Whether the grandparent `g` has the parent and the node that a rotation
/// of kind `rel` moves.
pub open spec fn can_rotate<T, N: TreeNode<T>>(g: N, rel: LocationRel) -> bool {
    match rel {
        LocationRel::LL => g.spec_left() is Some,
        LocationRel::RR => g.spec_right() is Some,
        LocationRel::LR => g.spec_left() is Some && g.spec_left().unwrap().spec_right() is Some,
        LocationRel::RL => g.spec_right() is Some && g.spec_right().unwrap().spec_left() is Some,
    }
}

/// The subtree rooted at the grandparent `g` after a rotation of kind `rel`:
/// for `LL` and `RR` the parent takes the place of `g`, for `LR` and `RL`
/// the node itself does, with parent and grandparent as its children.
pub open spec fn rotated<T, N: TreeNode<T>>(g: N, rel: LocationRel) -> N {
    match rel {
        LocationRel::LL => {
            let p = *g.spec_left().unwrap();
            p.spec_with_right(Some(Box::new(g.spec_with_left(p.spec_right()))))
        },
        LocationRel::RR => {
            let p = *g.spec_right().unwrap();
            p.spec_with_left(Some(Box::new(g.spec_with_right(p.spec_left()))))
        },
        LocationRel::LR => {
            let p = *g.spec_left().unwrap();
            let n = *p.spec_right().unwrap();
            n.spec_with_left(Some(Box::new(p.spec_with_right(n.spec_left())))).spec_with_right(
                Some(Box::new(g.spec_with_left(n.spec_right()))),
            )
        },
        LocationRel::RL => {
            let p = *g.spec_right().unwrap();
            let n = *p.spec_left().unwrap();
            n.spec_with_left(Some(Box::new(g.spec_with_right(n.spec_left())))).spec_with_right(
                Some(Box::new(p.spec_with_left(n.spec_right()))),
            )
        },
    }
}

/// `p` is the path that the search for `key` follows from `root`: every node
/// on it holds another value, and the path turns left exactly where `key`
/// comes before that node's value.
pub open spec fn on_search_path<T: Ord, N: TreeNode<T>>(
    root: Option<Box<N>>,
    key: T,
    p: Seq<Dir>,
) -> bool {
    forall|i: int|
        0 <= i < p.len() ==> ((#[trigger] subtree_at::<T, N>(root, p.take(i))) matches Some(m)
            && m.spec_value() != key && (p[i] == Dir::Left <==> lt(key, m.spec_value())))
}

// ---------------------------------------------------------------------------
// Functions shared by both trees.
// ---------------------------------------------------------------------------

/// Number of leaves of the subtree `node`.
pub fn count_leaves<T, N: TreeNode<T>>(node: &Option<Box<N>>) -> (r: usize)
    requires
        leaf_count::<T, N>(*node) <= usize::MAX,
    ensures
        r == leaf_count::<T, N>(*node),
    decreases size_of::<T, N>(*node),
{
    if let Some(n) = node {
        proof {
            n.lemma_children_smaller();
        }
        if n.left().is_none() && n.right().is_none() {
            1
        } else {
            count_leaves::<T, N>(n.left()) + count_leaves::<T, N>(n.right())
        }
    } else {
        0
    }
}

/// Height of the subtree `node`: 0 for an empty tree, 1 for a single node.
pub fn height<T, N: TreeNode<T>>(node: &Option<Box<N>>) -> (r: usize)
    requires
        tree_height::<T, N>(*node) <= usize::MAX,
    ensures
        r == tree_height::<T, N>(*node),
    decreases size_of::<T, N>(*node),
{
    if let Some(rc) = node {
        proof {
            rc.lemma_children_smaller();
        }
        let left_h = height::<T, N>(rc.left());
        let right_h = height::<T, N>(rc.right());
        let h = if left_h >= right_h {
            left_h
        } else {
            right_h
        } + 1;
        h
    } else {
        0
    }
}

/// The values of the subtree `node` in in-order.
pub fn inorder_traversal<T: Copy, N: TreeNode<T>>(node: &Option<Box<N>>) -> (r: Vec<T>)
    ensures
        r@ == inorder::<T, N>(*node),
    decreases size_of::<T, N>(*node),
{
    if let Some(n) = node {
        proof {
            n.lemma_children_smaller();
        }
        let mut out = inorder_traversal::<T, N>(n.left());
        out.push(*n.value());
        let mut right = inorder_traversal::<T, N>(n.right());
        out.append(&mut right);
        out
    } else {
        Vec::new()
    }
}

/// Where `key` is, or where it would be inserted, in the search tree `root`:
/// the search goes left from a node whose value comes after `key`, right
/// from one whose value comes before it, and stops at a node holding `key`
/// or where the next child is missing.
pub fn find_location<T: Ord + Copy, N: TreeNode<T>>(root: &Option<Box<N>>, key: T) -> (r:
    InsertionPoint<Vec<Dir>>)
    requires
        key_order::<T>(),
    ensures
        (r is AsRoot) <==> root is None,
        r matches InsertionPoint::Existing(p) ==> on_search_path::<T, N>(*root, key, p@) && (
        subtree_at::<T, N>(*root, p@) matches Some(n) && n.spec_value() == key),
        r matches InsertionPoint::AtLeftOf(p) ==> on_search_path::<T, N>(*root, key, p@) && (
        subtree_at::<T, N>(*root, p@) matches Some(n) && n.spec_value() != key && lt(
            key,
            n.spec_value(),
        ) && n.spec_left() is None),
        r matches InsertionPoint::AtRightOf(p) ==> on_search_path::<T, N>(*root, key, p@) && (
        subtree_at::<T, N>(*root, p@) matches Some(n) && n.spec_value() != key && !lt(
            key,
            n.spec_value(),
        ) && n.spec_right() is None),
{
    if root.is_none() {
        return InsertionPoint::AsRoot;
    }
    let mut node: &Box<N> = root.as_ref().unwrap();
    let mut path: Vec<Dir> = Vec::new();
    loop
        invariant
            key_order::<T>(),
            subtree_at::<T, N>(*root, path@) == Some(*node),
            on_search_path::<T, N>(*root, key, path@),
        decreases node.spec_size(),
    {
        proof {
            node.lemma_children_smaller();
        }
        let v = *node.value();
        if same(&key, &v) {
            return InsertionPoint::Existing(path);
        } else if less(&key, &v) {
            match node.left() {
                Some(l) => {
                    proof {
                        lemma_search_step::<T, N>(*root, key, path@, Dir::Left, *node);
                    }
                    path.push(Dir::Left);
                    node = l;
                },
                None => {
                    return InsertionPoint::AtLeftOf(path);
                },
            }
        } else {
            match node.right() {
                Some(r) => {
                    proof {
                        lemma_search_step::<T, N>(*root, key, path@, Dir::Right, *node);
                    }
                    path.push(Dir::Right);
                    node = r;
                },
                None => {
                    return InsertionPoint::AtRightOf(path);
                },
            }
        }
    }
}

/// One more step of the search, from the node `n` at path `p`.
proof fn lemma_search_step<T: Ord, N: TreeNode<T>>(
    root: Option<Box<N>>,
    key: T,
    p: Seq<Dir>,
    d: Dir,
    n: Box<N>,
)
    requires
        subtree_at::<T, N>(root, p) == Some(n),
        on_search_path::<T, N>(root, key, p),
        n.spec_value() != key,
        d == Dir::Left <==> lt(key, n.spec_value()),
    ensures
        subtree_at::<T, N>(root, p.push(d)) == child::<T, N>(*n, d),
        on_search_path::<T, N>(root, key, p.push(d)),
{
    assert(p.push(d) == p + seq![d]);
    lemma_subtree_at_append::<T, N>(root, p, seq![d]);
    assert(seq![d].drop_first() == Seq::<Dir>::empty());
    assert(subtree_at::<T, N>(Some(n), seq![d]) == subtree_at::<T, N>(
        child::<T, N>(*n, d),
        Seq::<Dir>::empty(),
    ));
    assert forall|i: int| 0 <= i < p.push(d).len() implies ((#[trigger] subtree_at::<T, N>(
        root,
        p.push(d).take(i),
    )) matches Some(m) && m.spec_value() != key && (p.push(d)[i] == Dir::Left <==> lt(
        key,
        m.spec_value(),
    ))) by {
        if i < p.len() {
            assert(p.push(d).take(i) == p.take(i));
            assert(subtree_at::<T, N>(root, p.take(i)) matches Some(m) && m.spec_value() != key);
        } else {
            assert(p.push(d).take(i) == p);
        }
    }
}

/// The parent of the node named by `n`; `None` for the root.
pub fn get_parent(n: &Vec<Dir>) -> (r: Option<Vec<Dir>>)
    ensures
        r is None <==> n@.len() == 0,
        r matches Some(p) ==> p@ == n@.drop_last(),
{
    if n.len() == 0 {
        None
    } else {
        let mut p: Vec<Dir> = Vec::new();
        let mut i: usize = 0;
        while i + 1 < n.len()
            invariant
                0 < n.len(),
                i + 1 <= n.len(),
                p@ == n@.subrange(0, i as int),
            decreases n.len() - i,
        {
            p.push(n[i]);
            i = i + 1;
            assert(p@ == n@.subrange(0, i as int));
        }
        Some(p)
    }
}

/// The grandparent of the node named by `n`; `None` when it has none.
pub fn get_grandparent(n: &Vec<Dir>) -> (r: Option<Vec<Dir>>)
    ensures
        r is None <==> n@.len() < 2,
        r matches Some(g) ==> g@ == n@.subrange(0, n@.len() - 2),
{
    match get_parent(n) {
        Some(p) => {
            let g = get_parent(&p);
            assert(g matches Some(gg) ==> gg@ == n@.subrange(0, n@.len() - 2));
            g
        },
        None => None,
    }
}

/// Whether the node named by `n` is the left child of its parent.
pub fn is_left_child(n: &Vec<Dir>) -> (r: bool)
    ensures
        r == (n@.len() > 0 && n@.last() == Dir::Left),
{
    if n.len() > 0 {
        n[n.len() - 1] == Dir::Left
    } else {
        false
    }
}

/// How the node named by `node` hangs below its grandparent; `None` when it
/// has no grandparent.
pub fn find_location_rel(node: &Vec<Dir>) -> (r: Option<LocationRel>)
    ensures
        r == rel_of(node@),
{
    let parent = match get_parent(node) {
        Some(p) => p,
        None => return None,
    };
    if get_grandparent(node).is_none() {
        return None;
    }
    let parent_is_left = is_left_child(&parent);
    let node_is_left = is_left_child(node);
    assert(parent@.last() == node@[node@.len() - 2]);
    Some(
        match (parent_is_left, node_is_left) {
            (true, true) => LocationRel::LL,
            (false, false) => LocationRel::RR,
            (true, false) => LocationRel::LR,
            (false, true) => LocationRel::RL,
        },
    )
}


proof fn lemma_with_laws_all<T, N: TreeNode<T>>()
    ensures
        forall|n: N, a: Option<Box<N>>| #[trigger] n.spec_with_left(a).spec_left() == a,
        forall|n: N, a: Option<Box<N>>| #[trigger] n.spec_with_left(a).spec_right() == n.spec_right(),
        forall|n: N, a: Option<Box<N>>| #[trigger] n.spec_with_left(a).spec_value() == n.spec_value(),
        forall|n: N, a: Option<Box<N>>| #[trigger] n.spec_with_right(a).spec_right() == a,
        forall|n: N, a: Option<Box<N>>| #[trigger] n.spec_with_right(a).spec_left() == n.spec_left(),
        forall|n: N, a: Option<Box<N>>| #[trigger] n.spec_with_right(a).spec_value() == n.spec_value(),
        forall|n: N, a: Option<Box<N>>, b: Option<Box<N>>|
            #[trigger] n.spec_with_left(a).spec_with_left(b) == n.spec_with_left(b),
        forall|n: N, a: Option<Box<N>>, b: Option<Box<N>>|
            #[trigger] n.spec_with_right(a).spec_with_right(b) == n.spec_with_right(b),
        forall|n: N, a: Option<Box<N>>, b: Option<Box<N>>|
            #[trigger] n.spec_with_left(a).spec_with_right(b) == n.spec_with_right(b).spec_with_left(a),
        forall|n: N| #[trigger] n.spec_with_left(n.spec_left()) == n,
        forall|n: N| #[trigger] n.spec_with_right(n.spec_right()) == n,
        forall|n: N, a: Option<Box<N>>| #[trigger] n.spec_with_left(a).spec_color() == n.spec_color(),
        forall|n: N, a: Option<Box<N>>|
            #[trigger] n.spec_with_left(a).spec_stored_height() == n.spec_stored_height(),
        forall|n: N, a: Option<Box<N>>| #[trigger] n.spec_with_right(a).spec_color() == n.spec_color(),
        forall|n: N, a: Option<Box<N>>|
            #[trigger] n.spec_with_right(a).spec_stored_height() == n.spec_stored_height(),
{
    assert forall|n: N, a: Option<Box<N>>| #[trigger] n.spec_with_left(a).spec_color() == n.spec_color() by {
        n.lemma_with_laws(a, a);
    }
    assert forall|n: N, a: Option<Box<N>>|
        #[trigger] n.spec_with_left(a).spec_stored_height() == n.spec_stored_height() by {
        n.lemma_with_laws(a, a);
    }
    assert forall|n: N, a: Option<Box<N>>| #[trigger] n.spec_with_right(a).spec_color() == n.spec_color() by {
        n.lemma_with_laws(a, a);
    }
    assert forall|n: N, a: Option<Box<N>>|
        #[trigger] n.spec_with_right(a).spec_stored_height() == n.spec_stored_height() by {
        n.lemma_with_laws(a, a);
    }
    assert forall|n: N| #[trigger] n.spec_with_left(n.spec_left()) == n by {
        n.lemma_with_laws(n.spec_left(), n.spec_right());
    }
    assert forall|n: N| #[trigger] n.spec_with_right(n.spec_right()) == n by {
        n.lemma_with_laws(n.spec_left(), n.spec_right());
    }
    assert forall|n: N, a: Option<Box<N>>| #[trigger] n.spec_with_left(a).spec_left() == a by {
        n.lemma_with_laws(a, a);
    }
    assert forall|n: N, a: Option<Box<N>>| #[trigger] n.spec_with_left(a).spec_right() == n.spec_right() by {
        n.lemma_with_laws(a, a);
    }
    assert forall|n: N, a: Option<Box<N>>| #[trigger] n.spec_with_left(a).spec_value() == n.spec_value() by {
        n.lemma_with_laws(a, a);
    }
    assert forall|n: N, a: Option<Box<N>>| #[trigger] n.spec_with_right(a).spec_right() == a by {
        n.lemma_with_laws(a, a);
    }
    assert forall|n: N, a: Option<Box<N>>| #[trigger] n.spec_with_right(a).spec_left() == n.spec_left() by {
        n.lemma_with_laws(a, a);
    }
    assert forall|n: N, a: Option<Box<N>>| #[trigger] n.spec_with_right(a).spec_value() == n.spec_value() by {
        n.lemma_with_laws(a, a);
    }
    assert forall|n: N, a: Option<Box<N>>, b: Option<Box<N>>|
        #[trigger] n.spec_with_left(a).spec_with_left(b) == n.spec_with_left(b) by {
        n.lemma_with_laws(a, b);
    }
    assert forall|n: N, a: Option<Box<N>>, b: Option<Box<N>>|
        #[trigger] n.spec_with_right(a).spec_with_right(b) == n.spec_with_right(b) by {
        n.lemma_with_laws(a, b);
    }
    assert forall|n: N, a: Option<Box<N>>, b: Option<Box<N>>|
        #[trigger] n.spec_with_left(a).spec_with_right(b) == n.spec_with_right(b).spec_with_left(a) by {
        n.lemma_with_laws(a, b);
    }
}

/// Rotation at the subtree root `cur`, which is the grandparent of the moved
/// node.
fn rotate_here<T, N: TreeNode<T>>(cur: &mut Option<Box<N>>, loc_rel: LocationRel)
    requires
        *old(cur) matches Some(g) && can_rotate::<T, N>(*g, loc_rel),
    ensures
        *final(cur) == Some(Box::new(rotated::<T, N>(*old(cur).unwrap(), loc_rel))),
{
    proof {
        lemma_with_laws_all::<T, N>();
    }
    let mut g = cur.take().unwrap();
    match loc_rel {
        LocationRel::LL => {
            // the parent comes up, its right subtree moves under the grandparent
            let mut p = (&mut *g).left_mut().take().unwrap();
            let parent_right = (&mut *p).right_mut().take();
            *(&mut *g).left_mut() = parent_right;
            *(&mut *p).right_mut() = Some(g);
            *cur = Some(p);
        },
        LocationRel::RR => {
            let mut p = (&mut *g).right_mut().take().unwrap();
            let parent_left = (&mut *p).left_mut().take();
            *(&mut *g).right_mut() = parent_left;
            *(&mut *p).left_mut() = Some(g);
            *cur = Some(p);
        },
        LocationRel::LR => {
            let mut p = (&mut *g).left_mut().take().unwrap();
            let mut n = (&mut *p).right_mut().take().unwrap();
            let node_left = (&mut *n).left_mut().take();
            let node_right = (&mut *n).right_mut().take();
            // parent.right = node.left, grandparent.left = node.right
            *(&mut *p).right_mut() = node_left;
            *(&mut *g).left_mut() = node_right;
            // the node comes up with parent and grandparent as its children
            *(&mut *n).left_mut() = Some(p);
            *(&mut *n).right_mut() = Some(g);
            *cur = Some(n);
        },
        LocationRel::RL => {
            let mut p = (&mut *g).right_mut().take().unwrap();
            let mut n = (&mut *p).left_mut().take().unwrap();
            let node_right = (&mut *n).right_mut().take();
            let node_left = (&mut *n).left_mut().take();
            // parent.left = node.right, grandparent.right = node.left
            *(&mut *p).left_mut() = node_right;
            *(&mut *g).right_mut() = node_left;
            *(&mut *n).left_mut() = Some(g);
            *(&mut *n).right_mut() = Some(p);
            *cur = Some(n);
        },
    }
}

proof fn lemma_subtree_at_append<T, N: TreeNode<T>>(node: Option<Box<N>>, p: Seq<Dir>, q: Seq<Dir>)
    ensures
        subtree_at::<T, N>(node, p + q) == subtree_at::<T, N>(subtree_at::<T, N>(node, p), q),
    decreases p.len(),
{
    if p.len() == 0 {
        assert(p + q == q);
    } else {
        match node {
            None => {
                if q.len() > 0 {
                    assert((p + q).len() > 0);
                }
            },
            Some(n) => {
                assert((p + q).drop_first() == p.drop_first() + q);
                assert((p + q)[0] == p[0]);
                lemma_subtree_at_append::<T, N>(child::<T, N>(*n, p[0]), p.drop_first(), q);
            },
        }
    }
}

/// Walks down `gp` from depth `depth` and rotates there.
fn rotate_down<T, N: TreeNode<T>>(
    cur: &mut Option<Box<N>>,
    gp: &Vec<Dir>,
    depth: usize,
    loc_rel: LocationRel,
)
    requires
        depth <= gp.len(),
        subtree_at::<T, N>(*old(cur), gp@.subrange(depth as int, gp.len() as int)) matches Some(g)
            && can_rotate::<T, N>(*g, loc_rel),
    ensures
        *final(cur) == replace_at::<T, N>(
            *old(cur),
            gp@.subrange(depth as int, gp.len() as int),
            Some(
                Box::new(
                    rotated::<T, N>(
                        *subtree_at::<T, N>(
                            *old(cur),
                            gp@.subrange(depth as int, gp.len() as int),
                        ).unwrap(),
                        loc_rel,
                    ),
                ),
            ),
        ),
    decreases gp.len() - depth,
{
    let ghost rest = gp@.subrange(depth as int, gp.len() as int);
    if depth == gp.len() {
        rotate_here::<T, N>(cur, loc_rel);
    } else {
        proof {
            lemma_with_laws_all::<T, N>();
            assert(rest.drop_first() == gp@.subrange(depth + 1, gp.len() as int));
        }
        let mut b = cur.take().unwrap();
        if gp[depth] == Dir::Left {
            rotate_down::<T, N>((&mut *b).left_mut(), gp, depth + 1, loc_rel);
        } else {
            rotate_down::<T, N>((&mut *b).right_mut(), gp, depth + 1, loc_rel);
        }
        *cur = Some(b);
    }
}

/// Rotates the grandparent of the node named by `node` according to
/// `loc_rel`, which is how that node hangs below its grandparent. The
/// subtree of the grandparent is replaced by its rotation; the rest of the
/// tree is unchanged.
pub fn rotate<T, N: TreeNode<T>>(root: &mut Option<Box<N>>, node: &Vec<Dir>, loc_rel: LocationRel)
    requires
        rel_of(node@) == Some(loc_rel),
        subtree_at::<T, N>(*old(root), node@) is Some,
    ensures
        *final(root) == replace_at::<T, N>(
            *old(root),
            node@.subrange(0, node@.len() - 2),
            Some(
                Box::new(
                    rotated::<T, N>(
                        *subtree_at::<T, N>(*old(root), node@.subrange(0, node@.len() - 2)).unwrap(),
                        loc_rel,
                    ),
                ),
            ),
        ),
{
    let grandparent = match get_grandparent(node) {
        Some(g) => g,
        None => {
            return;
        },
    };
    proof {
        let len = node@.len();
        let gp = node@.subrange(0, len - 2);
        let d1 = node@[len - 2];
        let d2 = node@[len - 1];
        assert(node@ == gp + seq![d1, d2]);
        lemma_subtree_at_append::<T, N>(*root, gp, seq![d1, d2]);
        assert(grandparent@.subrange(0, grandparent@.len() as int) == grandparent@);
        let g = subtree_at::<T, N>(*root, gp);
        assert(seq![d1, d2].drop_first() == seq![d2]);
        assert(seq![d2].drop_first() == Seq::<Dir>::empty());
        if g is None {
            assert(subtree_at::<T, N>(g, seq![d1, d2]) is None);
        } else {
            let gn = *g.unwrap();
            assert(subtree_at::<T, N>(g, seq![d1, d2]) == subtree_at::<T, N>(
                child::<T, N>(gn, d1),
                seq![d2],
            ));
            let pc = child::<T, N>(gn, d1);
            if pc is None {
                assert(subtree_at::<T, N>(pc, seq![d2]) is None);
            } else {
                assert(subtree_at::<T, N>(pc, seq![d2]) == subtree_at::<T, N>(
                    child::<T, N>(*pc.unwrap(), d2),
                    Seq::<Dir>::empty(),
                ));
            }
            assert(can_rotate::<T, N>(gn, loc_rel));
        }
        assert(grandparent@ == gp);
    }
    rotate_down::<T, N>(root, &grandparent, 0, loc_rel);
}

/// Unfolds the model of a node one level.
pub proof fn lemma_unfold<T: Ord, N: TreeNode<T>>(n: N)
    ensures
        label_set::<T, N>(Some(Box::new(n))) == label_set::<T, N>(n.spec_left()).union(
            label_set::<T, N>(n.spec_right()),
        ).insert((n.spec_value(), n.spec_color(), n.spec_stored_height())),
        tree_set::<T, N>(Some(Box::new(n))) == tree_set::<T, N>(n.spec_left()).union(
            tree_set::<T, N>(n.spec_right()),
        ).insert(n.spec_value()),
        inorder::<T, N>(Some(Box::new(n))) == inorder::<T, N>(n.spec_left()).push(
            n.spec_value(),
        ).add(inorder::<T, N>(n.spec_right())),
        is_bst::<T, N>(Some(Box::new(n))) == (is_bst::<T, N>(n.spec_left()) && is_bst::<T, N>(
            n.spec_right(),
        ) && (forall|x: T| #[trigger]
            tree_set::<T, N>(n.spec_left()).contains(x) ==> lt(x, n.spec_value())) && (forall|
            x: T,
        | #[trigger] tree_set::<T, N>(n.spec_right()).contains(x) ==> lt(n.spec_value(), x))),
{
}

/// In a search tree the value of a node is distinct from the values of its
/// two subtrees, which are disjoint: a node adds one to the number of
/// values of its subtrees.
pub proof fn lemma_bst_len<T: Ord, N: TreeNode<T>>(n: N)
    requires
        key_order::<T>(),
        is_bst::<T, N>(Some(Box::new(n))),
        tree_set::<T, N>(n.spec_left()).finite(),
        tree_set::<T, N>(n.spec_right()).finite(),
    ensures
        tree_set::<T, N>(Some(Box::new(n))).finite(),
        tree_set::<T, N>(Some(Box::new(n))).len() == tree_set::<T, N>(n.spec_left()).len()
            + tree_set::<T, N>(n.spec_right()).len() + 1,
{
    lemma_key_order::<T>();
    lemma_unfold::<T, N>(n);
    let l = tree_set::<T, N>(n.spec_left());
    let r = tree_set::<T, N>(n.spec_right());
    assert(l.disjoint(r)) by {
        assert forall|x: T| l.contains(x) implies !r.contains(x) by {
            assert(lt(x, n.spec_value()));
        }
    }
    vstd::set_lib::lemma_set_disjoint_lens(l, r);
    if (l + r).contains(n.spec_value()) {
        if l.contains(n.spec_value()) {
            assert(lt(n.spec_value(), n.spec_value()));
        } else {
            assert(lt(n.spec_value(), n.spec_value()));
        }
    }
}

/// A rotation keeps the values of the subtree, their in-order sequence, the
/// search-tree order, and what every node shows (value, colour, recorded
/// height).
pub proof fn lemma_rotation_preserves_order<T: Ord, N: TreeNode<T>>(g: N, rel: LocationRel)
    requires
        can_rotate::<T, N>(g, rel),
    ensures
        tree_set::<T, N>(Some(Box::new(rotated::<T, N>(g, rel)))) == tree_set::<T, N>(
            Some(Box::new(g)),
        ),
        inorder::<T, N>(Some(Box::new(rotated::<T, N>(g, rel)))) == inorder::<T, N>(
            Some(Box::new(g)),
        ),
        key_order::<T>() && is_bst::<T, N>(Some(Box::new(g))) ==> is_bst::<T, N>(
            Some(Box::new(rotated::<T, N>(g, rel))),
        ),
        label_set::<T, N>(Some(Box::new(rotated::<T, N>(g, rel)))) == label_set::<T, N>(
            Some(Box::new(g)),
        ),
{
    lemma_with_laws_all::<T, N>();
    let r = rotated::<T, N>(g, rel);
    if key_order::<T>() {
        lemma_key_order::<T>();
    }
    lemma_unfold::<T, N>(g);
    lemma_unfold::<T, N>(r);
    match rel {
        LocationRel::LL => {
            let p = *g.spec_left().unwrap();
            let g2 = g.spec_with_left(p.spec_right());
            lemma_unfold::<T, N>(p);
            lemma_unfold::<T, N>(g2);
            assert(tree_set::<T, N>(Some(Box::new(r))) =~= tree_set::<T, N>(Some(Box::new(g))));
            assert(inorder::<T, N>(Some(Box::new(r))) =~= inorder::<T, N>(Some(Box::new(g))));
            assert(label_set::<T, N>(Some(Box::new(r))) =~= label_set::<T, N>(Some(Box::new(g))));
            if key_order::<T>() && is_bst::<T, N>(Some(Box::new(g))) {
                assert(tree_set::<T, N>(g.spec_left()).contains(p.spec_value()));
                assert forall|x: T| #[trigger] tree_set::<T, N>(p.spec_right()).contains(x) implies lt(
                    x,
                    g.spec_value(),
                ) by {
                    assert(tree_set::<T, N>(g.spec_left()).contains(x));
                }
                assert(is_bst::<T, N>(Some(Box::new(g2))));
                assert forall|x: T| #[trigger] tree_set::<T, N>(Some(Box::new(g2))).contains(x) implies lt(
                    p.spec_value(),
                    x,
                ) by {
                    if tree_set::<T, N>(g.spec_right()).contains(x) {
                        assert(lt(g.spec_value(), x));
                    }
                }
            }
        },
        LocationRel::RR => {
            let p = *g.spec_right().unwrap();
            let g2 = g.spec_with_right(p.spec_left());
            lemma_unfold::<T, N>(p);
            lemma_unfold::<T, N>(g2);
            assert(tree_set::<T, N>(Some(Box::new(r))) =~= tree_set::<T, N>(Some(Box::new(g))));
            assert(inorder::<T, N>(Some(Box::new(r))) =~= inorder::<T, N>(Some(Box::new(g))));
            assert(label_set::<T, N>(Some(Box::new(r))) =~= label_set::<T, N>(Some(Box::new(g))));
            if key_order::<T>() && is_bst::<T, N>(Some(Box::new(g))) {
                assert(tree_set::<T, N>(g.spec_right()).contains(p.spec_value()));
                assert forall|x: T| #[trigger] tree_set::<T, N>(p.spec_left()).contains(x) implies lt(
                    g.spec_value(),
                    x,
                ) by {
                    assert(tree_set::<T, N>(g.spec_right()).contains(x));
                }
                assert(is_bst::<T, N>(Some(Box::new(g2))));
                assert forall|x: T| #[trigger] tree_set::<T, N>(Some(Box::new(g2))).contains(x) implies lt(
                    x,
                    p.spec_value(),
                ) by {
                    if tree_set::<T, N>(g.spec_left()).contains(x) {
                        assert(lt(x, g.spec_value()));
                    }
                }
            }
        },
        LocationRel::LR => {
            let p = *g.spec_left().unwrap();
            let n = *p.spec_right().unwrap();
            let p2 = p.spec_with_right(n.spec_left());
            let g2 = g.spec_with_left(n.spec_right());
            lemma_unfold::<T, N>(p);
            lemma_unfold::<T, N>(n);
            lemma_unfold::<T, N>(p2);
            lemma_unfold::<T, N>(g2);
            assert(tree_set::<T, N>(Some(Box::new(r))) =~= tree_set::<T, N>(Some(Box::new(g))));
            assert(inorder::<T, N>(Some(Box::new(r))) =~= inorder::<T, N>(Some(Box::new(g))));
            assert(label_set::<T, N>(Some(Box::new(r))) =~= label_set::<T, N>(Some(Box::new(g))));
            if key_order::<T>() && is_bst::<T, N>(Some(Box::new(g))) {
                let pv = p.spec_value();
                let nv = n.spec_value();
                let gv = g.spec_value();
                assert(tree_set::<T, N>(p.spec_right()).contains(nv));
                assert(tree_set::<T, N>(g.spec_left()).contains(nv));
                assert forall|x: T| #[trigger] tree_set::<T, N>(n.spec_left()).contains(x) implies lt(
                    pv,
                    x,
                ) by {
                    assert(tree_set::<T, N>(p.spec_right()).contains(x));
                }
                assert forall|x: T| #[trigger] tree_set::<T, N>(n.spec_right()).contains(x) implies lt(
                    x,
                    gv,
                ) by {
                    assert(tree_set::<T, N>(p.spec_right()).contains(x));
                    assert(tree_set::<T, N>(g.spec_left()).contains(x));
                }
                assert(is_bst::<T, N>(Some(Box::new(p2))));
                assert(is_bst::<T, N>(Some(Box::new(g2))));
                assert forall|x: T| #[trigger] tree_set::<T, N>(Some(Box::new(p2))).contains(x) implies lt(
                    x,
                    nv,
                ) by {
                    if tree_set::<T, N>(p.spec_left()).contains(x) {
                        assert(lt(x, pv));
                    }
                }
                assert forall|x: T| #[trigger] tree_set::<T, N>(Some(Box::new(g2))).contains(x) implies lt(
                    nv,
                    x,
                ) by {
                    if tree_set::<T, N>(g.spec_right()).contains(x) {
                        assert(lt(gv, x));
                    }
                }
            }
        },
        LocationRel::RL => {
            let p = *g.spec_right().unwrap();
            let n = *p.spec_left().unwrap();
            let p2 = p.spec_with_left(n.spec_right());
            let g2 = g.spec_with_right(n.spec_left());
            lemma_unfold::<T, N>(p);
            lemma_unfold::<T, N>(n);
            lemma_unfold::<T, N>(p2);
            lemma_unfold::<T, N>(g2);
            assert(tree_set::<T, N>(Some(Box::new(r))) =~= tree_set::<T, N>(Some(Box::new(g))));
            assert(inorder::<T, N>(Some(Box::new(r))) =~= inorder::<T, N>(Some(Box::new(g))));
            assert(label_set::<T, N>(Some(Box::new(r))) =~= label_set::<T, N>(Some(Box::new(g))));
            if key_order::<T>() && is_bst::<T, N>(Some(Box::new(g))) {
                let pv = p.spec_value();
                let nv = n.spec_value();
                let gv = g.spec_value();
                assert(tree_set::<T, N>(p.spec_left()).contains(nv));
                assert(tree_set::<T, N>(g.spec_right()).contains(nv));
                assert forall|x: T| #[trigger] tree_set::<T, N>(n.spec_right()).contains(x) implies lt(
                    x,
                    pv,
                ) by {
                    assert(tree_set::<T, N>(p.spec_left()).contains(x));
                }
                assert forall|x: T| #[trigger] tree_set::<T, N>(n.spec_left()).contains(x) implies lt(
                    gv,
                    x,
                ) by {
                    assert(tree_set::<T, N>(p.spec_left()).contains(x));
                    assert(tree_set::<T, N>(g.spec_right()).contains(x));
                }
                assert(is_bst::<T, N>(Some(Box::new(p2))));
                assert(is_bst::<T, N>(Some(Box::new(g2))));
                assert forall|x: T| #[trigger] tree_set::<T, N>(Some(Box::new(p2))).contains(x) implies lt(
                    nv,
                    x,
                ) by {
                    if tree_set::<T, N>(p.spec_right()).contains(x) {
                        assert(lt(pv, x));
                    }
                }
                assert forall|x: T| #[trigger] tree_set::<T, N>(Some(Box::new(g2))).contains(x) implies lt(
                    x,
                    nv,
                ) by {
                    if tree_set::<T, N>(g.spec_left()).contains(x) {
                        assert(lt(x, gv));
                    }
                }
            }
        },
    }
}

/// Following a path of two steps from a node.
pub proof fn lemma_subtree_at_two<T, N: TreeNode<T>>(n: N, d1: Dir, d2: Dir)
    ensures
        subtree_at::<T, N>(Some(Box::new(n)), seq![d1, d2]) == (match child::<T, N>(n, d1) {
            None => None,
            Some(p) => child::<T, N>(*p, d2),
        }),
{
    assert(seq![d1, d2].drop_first() == seq![d2]);
    assert(seq![d2].drop_first() == Seq::<Dir>::empty());
    let c = child::<T, N>(n, d1);
    if c is Some {
        assert(subtree_at::<T, N>(c, seq![d2]) == subtree_at::<T, N>(
            child::<T, N>(*c.unwrap(), d2),
            Seq::<Dir>::empty(),
        ));
    }
}

/// The in-order sequence of a search tree is strictly increasing and holds
/// exactly the values of the tree.
pub proof fn lemma_inorder_sorted<T: Ord, N: TreeNode<T>>(node: Option<Box<N>>)
    requires
        key_order::<T>(),
        is_bst::<T, N>(node),
    ensures
        inorder::<T, N>(node).to_set() == tree_set::<T, N>(node),
        forall|i: int, j: int|
            0 <= i < j < inorder::<T, N>(node).len() ==> lt(
                #[trigger] inorder::<T, N>(node)[i],
                #[trigger] inorder::<T, N>(node)[j],
            ),
    decreases size_of::<T, N>(node),
{
    lemma_key_order::<T>();
    match node {
        None => {
            assert(inorder::<T, N>(node).to_set() =~= tree_set::<T, N>(node));
        },
        Some(n) => {
            n.lemma_children_smaller();
            lemma_inorder_sorted::<T, N>(n.spec_left());
            lemma_inorder_sorted::<T, N>(n.spec_right());
            let l = inorder::<T, N>(n.spec_left());
            let r = inorder::<T, N>(n.spec_right());
            let s = inorder::<T, N>(node);
            let v = n.spec_value();
            assert(s == l.push(v) + r);
            assert forall|x: T| s.to_set().contains(x) <==> tree_set::<T, N>(node).contains(x) by {
                if s.to_set().contains(x) {
                    let k = choose|k: int| 0 <= k < s.len() && s[k] == x;
                    if k < l.len() {
                        assert(l.to_set().contains(l[k]));
                    } else if k > l.len() {
                        assert(r.to_set().contains(r[k - l.len() - 1]));
                    }
                }
                if tree_set::<T, N>(node).contains(x) {
                    if tree_set::<T, N>(n.spec_left()).contains(x) {
                        assert(l.to_set().contains(x));
                        let k = choose|k: int| 0 <= k < l.len() && l[k] == x;
                        assert(s[k] == x);
                    } else if tree_set::<T, N>(n.spec_right()).contains(x) {
                        assert(r.to_set().contains(x));
                        let k = choose|k: int| 0 <= k < r.len() && r[k] == x;
                        assert(s[l.len() + 1 + k] == x);
                    } else {
                        assert(s[l.len() as int] == x);
                    }
                }
            }
            assert(s.to_set() =~= tree_set::<T, N>(node));
            assert forall|i: int, j: int| 0 <= i < j < s.len() implies lt(
                #[trigger] s[i],
                #[trigger] s[j],
            ) by {
                let ll = l.len() as int;
                if i < ll {
                    assert(l.to_set().contains(l[i]));
                }
                if j > ll {
                    assert(r.to_set().contains(r[j - ll - 1]));
                }
                if i < ll && j < ll {
                } else if i < ll && j == ll {
                } else if i < ll {
                    assert(lt(s[i], v));
                    assert(lt(v, s[j]));
                } else if i == ll {
                } else {
                }
            }
        },
    }
}

/// A rotation of one kind is undone by the rotation of the mirror kind at
/// the node that came up: a left rotation (`RR`) followed by a right rotation
/// (`LL`) gives back the subtree it started from, and the other way round.
pub proof fn lemma_rotations_undo<T, N: TreeNode<T>>(g: N)
    ensures
        g.spec_right() is Some ==> rotated::<T, N>(rotated::<T, N>(g, LocationRel::RR), LocationRel::LL)
            == g,
        g.spec_left() is Some ==> rotated::<T, N>(rotated::<T, N>(g, LocationRel::LL), LocationRel::RR)
            == g,
{
    lemma_with_laws_all::<T, N>();
    if g.spec_right() is Some {
        let p = *g.spec_right().unwrap();
        assert(p.spec_with_left(p.spec_left()) == p);
        assert(Some(Box::new(p)) == g.spec_right());
    }
    if g.spec_left() is Some {
        let p = *g.spec_left().unwrap();
        assert(p.spec_with_right(p.spec_right()) == p);
        assert(Some(Box::new(p)) == g.spec_left());
    }
}

/// Replacing a subtree by one with the same values in the same in-order
/// sequence keeps the values and the in-order sequence of the whole tree,
/// and, when the new subtree is ordered, the search-tree order.
pub proof fn lemma_replace_preserves_order<T: Ord, N: TreeNode<T>>(
    root: Option<Box<N>>,
    path: Seq<Dir>,
    new: Option<Box<N>>,
)
    requires
        subtree_at::<T, N>(root, path) is Some,
        tree_set::<T, N>(new) == tree_set::<T, N>(subtree_at::<T, N>(root, path)),
        inorder::<T, N>(new) == inorder::<T, N>(subtree_at::<T, N>(root, path)),
        label_set::<T, N>(new) == label_set::<T, N>(subtree_at::<T, N>(root, path)),
    ensures
        label_set::<T, N>(replace_at::<T, N>(root, path, new)) == label_set::<T, N>(root),
        tree_set::<T, N>(replace_at::<T, N>(root, path, new)) == tree_set::<T, N>(root),
        inorder::<T, N>(replace_at::<T, N>(root, path, new)) == inorder::<T, N>(root),
        is_bst::<T, N>(root) && is_bst::<T, N>(new) ==> is_bst::<T, N>(
            replace_at::<T, N>(root, path, new),
        ),
    decreases path.len(),
{
    if path.len() > 0 {
        lemma_with_laws_all::<T, N>();
        let n = *root.unwrap();
        let d = path[0];
        let c = child::<T, N>(n, d);
        lemma_replace_preserves_order::<T, N>(c, path.drop_first(), new);
        let c2 = replace_at::<T, N>(c, path.drop_first(), new);
        let n2 = with_child::<T, N>(n, d, c2);
        lemma_unfold::<T, N>(n);
        lemma_unfold::<T, N>(n2);
    }
}

/// `rotate` keeps the values of the whole tree, their in-order sequence, the
/// search-tree order, and what every node shows (value, colour, recorded
/// height).
pub proof fn lemma_rotate_preserves_order<T: Ord, N: TreeNode<T>>(
    root: Option<Box<N>>,
    node: Seq<Dir>,
    loc_rel: LocationRel,
)
    requires
        rel_of(node) == Some(loc_rel),
        subtree_at::<T, N>(root, node) is Some,
    ensures
        ({
            let gp = node.subrange(0, node.len() - 2);
            let r = replace_at::<T, N>(
                root,
                gp,
                Some(Box::new(rotated::<T, N>(*subtree_at::<T, N>(root, gp).unwrap(), loc_rel))),
            );
            &&& tree_set::<T, N>(r) == tree_set::<T, N>(root)
            &&& inorder::<T, N>(r) == inorder::<T, N>(root)
            &&& label_set::<T, N>(r) == label_set::<T, N>(root)
            &&& key_order::<T>() && is_bst::<T, N>(root) ==> is_bst::<T, N>(r)
        }),
{
    let len = node.len();
    let gp = node.subrange(0, len - 2);
    let d1 = node[len - 2];
    let d2 = node[len - 1];
    assert(node == gp + seq![d1, d2]);
    lemma_subtree_at_append::<T, N>(root, gp, seq![d1, d2]);
    let g = subtree_at::<T, N>(root, gp);
    if g is None {
        assert(subtree_at::<T, N>(g, seq![d1, d2]) is None);
    }
    let gn = *g.unwrap();
    lemma_subtree_at_two::<T, N>(gn, d1, d2);
    assert(can_rotate::<T, N>(gn, loc_rel));
    lemma_rotation_preserves_order::<T, N>(gn, loc_rel);
    if is_bst::<T, N>(root) {
        lemma_bst_subtree::<T, N>(root, gp);
    }
    lemma_replace_preserves_order::<T, N>(root, gp, Some(Box::new(rotated::<T, N>(gn, loc_rel))));
}

/// Every subtree of a search tree is a search tree.
pub proof fn lemma_bst_subtree<T: Ord, N: TreeNode<T>>(root: Option<Box<N>>, path: Seq<Dir>)
    requires
        is_bst::<T, N>(root),
    ensures
        is_bst::<T, N>(subtree_at::<T, N>(root, path)),
    decreases path.len(),
{
    if path.len() > 0 && root is Some {
        let n = *root.unwrap();
        lemma_unfold::<T, N>(n);
        lemma_bst_subtree::<T, N>(child::<T, N>(n, path[0]), path.drop_first());
    }
}
}
