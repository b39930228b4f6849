use vstd::prelude::*;

use crate::common::{size_of, DisplayColor, TreeNode};

verus! {

/// A piece of the indentation in front of a line of a drawn tree.
#[derive(Clone, Copy, Debug, PartialEq, Eq, Structural)]
pub enum PrefixPiece {
    /// Two spaces: the indentation below the root in the vertical drawing.
    Indent,
    /// Four spaces: below a node that was the last child.
    Blank,
    /// A bar and three spaces: below a node that has a sibling after it.
    Bar,
    /// Two spaces and a bar: the indentation below the root in the
    /// horizontal drawing.
    StartBar,
    /// Three spaces and a bar.
    PadBar,
    /// A backspace, four spaces and a bar.
    BackPadBar,
}

/// What stands between the indentation and the value of a node.
#[derive(Clone, Copy, Debug, PartialEq, Eq, Structural)]
pub enum Connector {
    /// `Root: `
    Root,
    /// `└── L: `, a left child without a right sibling.
    LeftLast,
    /// `├── L: `, a left child with a right sibling.
    LeftMiddle,
    /// `└── R: `, a right child.
    RightLast,
    /// A backspace then `└── L: `, a left child drawn below its parent.
    LeftBelow,
    /// A backspace then `┌── R: `, a right child drawn above its parent.
    RightAbove,
}

/// The node shown on a line: its connector, value, colour and recorded
/// height.
#[derive(Clone, Copy, Debug)]
pub struct NodeLabel<T: Copy> {
    pub connector: Connector,
    pub value: T,
    pub color: Option<DisplayColor>,
    pub height: Option<usize>,
}

/// One line of a drawn tree: the indentation, then a node or nothing.
pub struct LayoutLine<T: Copy> {
    pub prefix: Vec<PrefixPiece>,
    pub label: Option<NodeLabel<T>>,
}

/// The model of a line.
pub open spec fn line_view<T: Copy>(l: LayoutLine<T>) -> (Seq<PrefixPiece>, Option<NodeLabel<T>>) {
    (l.prefix@, l.label)
}

/// The model of a sequence of lines.
pub open spec fn lines_view<T: Copy>(s: Seq<LayoutLine<T>>) -> Seq<
    (Seq<PrefixPiece>, Option<NodeLabel<T>>),
> {
    s.map_values(|l: LayoutLine<T>| line_view(l))
}

/// The label of node `n` with connector `c`.
pub open spec fn label_of<T: Copy, N: TreeNode<T>>(n: N, c: Connector) -> NodeLabel<T> {
    NodeLabel {
        connector: c,
        value: n.spec_value(),
        color: n.spec_color(),
        height: n.spec_stored_height(),
    }
}

/// The vertical drawing of the subtree `node`: the node first, then its left
/// subtree, then its right subtree, each one level further indented.
pub open spec fn pattern1<T: Copy, N: TreeNode<T>>(
    node: Option<Box<N>>,
    prefix: Seq<PrefixPiece>,
    is_left: bool,
    is_last: bool,
) -> Seq<(Seq<PrefixPiece>, Option<NodeLabel<T>>)>
    decreases size_of::<T, N>(node),
{
    match node {
        None => Seq::empty(),
        Some(n) => {
            proof {
                n.lemma_children_smaller();
            }
            let connector = if prefix.len() == 0 {
                Connector::Root
            } else if is_left {
                if is_last {
                    Connector::LeftLast
                } else {
                    Connector::LeftMiddle
                }
            } else {
                Connector::RightLast
            };
            let child_prefix = if prefix.len() == 0 {
                seq![PrefixPiece::Indent]
            } else if is_last {
                prefix.push(PrefixPiece::Blank)
            } else {
                prefix.push(PrefixPiece::Bar)
            };
            seq![(prefix, Some(label_of::<T, N>(*n, connector)))] + pattern1::<T, N>(
                n.spec_left(),
                child_prefix,
                true,
                n.spec_right() is None,
            ) + pattern1::<T, N>(n.spec_right(), child_prefix, false, true)
        },
    }
}

/// The horizontal drawing of the subtree `node`: the right subtree above the
/// node, the left subtree below it, each joined to the node by a line of
/// indentation only.
pub open spec fn pattern2<T: Copy, N: TreeNode<T>>(
    node: Option<Box<N>>,
    prefix: Seq<PrefixPiece>,
    is_left: bool,
) -> Seq<(Seq<PrefixPiece>, Option<NodeLabel<T>>)>
    decreases size_of::<T, N>(node),
{
    match node {
        None => Seq::empty(),
        Some(n) => {
            proof {
                n.lemma_children_smaller();
            }
            let right_prefix = if prefix.len() == 0 {
                seq![PrefixPiece::StartBar]
            } else if is_left {
                prefix.push(PrefixPiece::PadBar)
            } else {
                prefix.push(PrefixPiece::BackPadBar)
            };
            let left_prefix = if prefix.len() == 0 {
                seq![PrefixPiece::StartBar]
            } else if is_left {
                prefix.push(PrefixPiece::BackPadBar)
            } else {
                prefix.push(PrefixPiece::PadBar)
            };
            let connector = if prefix.len() == 0 {
                Connector::Root
            } else if is_left {
                Connector::LeftBelow
            } else {
                Connector::RightAbove
            };
            let above = if n.spec_right() is Some {
                pattern2::<T, N>(n.spec_right(), right_prefix, false) + seq![(right_prefix, None)]
            } else {
                Seq::empty()
            };
            let below = if n.spec_left() is Some {
                seq![(left_prefix, None)] + pattern2::<T, N>(n.spec_left(), left_prefix, true)
            } else {
                Seq::empty()
            };
            above + seq![(prefix, Some(label_of::<T, N>(*n, connector)))] + below
        },
    }
}

/// `prefix` with `piece` added at the end.
fn extend_prefix(prefix: &Vec<PrefixPiece>, piece: PrefixPiece) -> (r: Vec<PrefixPiece>)
    ensures
        r@ == prefix@.push(piece),
{
    let mut r: Vec<PrefixPiece> = Vec::new();
    let mut i: usize = 0;
    while i < prefix.len()
        invariant
            i <= prefix.len(),
            r@ == prefix@.subrange(0, i as int),
        decreases prefix.len() - i,
    {
        r.push(prefix[i]);
        i = i + 1;
        assert(r@ == prefix@.subrange(0, i as int));
    }
    assert(prefix@.subrange(0, prefix.len() as int) == prefix@);
    r.push(piece);
    r
}

/// Appends `line` to `out`.
fn push_line<T: Copy>(out: &mut Vec<LayoutLine<T>>, line: LayoutLine<T>)
    ensures
        lines_view(final(out)@) == lines_view(old(out)@).push(line_view(line)),
{
    out.push(line);
    assert(lines_view(out@) =~= lines_view(old(out)@).push(line_view(line)));
}

fn node_label<T: Copy, N: TreeNode<T>>(n: &N, c: Connector) -> (r: NodeLabel<T>)
    ensures
        r == label_of::<T, N>(*n, c),
{
    NodeLabel { connector: c, value: *n.value(), color: n.color(), height: n.height() }
}

fn layout1<T: Copy, N: TreeNode<T>>(
    node: &Option<Box<N>>,
    prefix: &Vec<PrefixPiece>,
    is_left: bool,
    is_last: bool,
    out: &mut Vec<LayoutLine<T>>,
)
    ensures
        lines_view(final(out)@) == lines_view(old(out)@) + pattern1::<T, N>(
            *node,
            prefix@,
            is_left,
            is_last,
        ),
    decreases size_of::<T, N>(*node),
{
    if let Some(n) = node {
        proof {
            n.lemma_children_smaller();
        }
        let ghost start = lines_view(out@);
        // connector before the node value
        let connector = if prefix.len() == 0 {
            Connector::Root
        } else if is_left {
            if is_last {
                Connector::LeftLast
            } else {
                Connector::LeftMiddle
            }
        } else {
            Connector::RightLast
        };
        let own_prefix = copy_prefix(prefix);
        push_line(out, LayoutLine { prefix: own_prefix, label: Some(node_label(&**n, connector)) });
        // the prefix of the children controls the indentation
        let child_prefix = if prefix.len() == 0 {
            let mut p: Vec<PrefixPiece> = Vec::new();
            p.push(PrefixPiece::Indent);
            p
        } else if is_last {
            extend_prefix(prefix, PrefixPiece::Blank)
        } else {
            extend_prefix(prefix, PrefixPiece::Bar)
        };
        proof {
            if prefix@.len() == 0 {
                assert(child_prefix@ == seq![PrefixPiece::Indent]);
            }
        }
        let ghost mid = lines_view(out@);
        let has_left = n.left().is_some();
        let has_right = n.right().is_some();
        if has_left {
            // the left child is last only if there is no right child
            layout1::<T, N>(n.left(), &child_prefix, true, !has_right, out);
        }
        let ghost mid2 = lines_view(out@);
        if has_right {
            // the right child is always the last
            layout1::<T, N>(n.right(), &child_prefix, false, true, out);
        }
        proof {
            let own = seq![(prefix@, Some(label_of::<T, N>(**n, connector)))];
            let lp = pattern1::<T, N>(n.spec_left(), child_prefix@, true, n.spec_right() is None);
            let rp = pattern1::<T, N>(n.spec_right(), child_prefix@, false, true);
            assert(mid == start + own);
            assert(mid2 == mid + lp);
            assert(lines_view(out@) == mid2 + rp);
            assert(pattern1::<T, N>(*node, prefix@, is_left, is_last) == own + lp + rp);
            assert(lines_view(out@) =~= start + (own + lp + rp));
        }
    }
}

/// A copy of `prefix`.
fn copy_prefix(prefix: &Vec<PrefixPiece>) -> (r: Vec<PrefixPiece>)
    ensures
        r@ == prefix@,
{
    let mut r: Vec<PrefixPiece> = Vec::new();
    let mut i: usize = 0;
    while i < prefix.len()
        invariant
            i <= prefix.len(),
            r@ == prefix@.subrange(0, i as int),
        decreases prefix.len() - i,
    {
        r.push(prefix[i]);
        i = i + 1;
        assert(r@ == prefix@.subrange(0, i as int));
    }
    assert(prefix@.subrange(0, prefix.len() as int) == prefix@);
    r
}

/// The lines of the vertical drawing of the tree `root`; none for an empty
/// tree.
pub fn layout_pattern1<T: Copy, N: TreeNode<T>>(root: &Option<Box<N>>) -> (r: Vec<LayoutLine<T>>)
    ensures
        lines_view(r@) == pattern1::<T, N>(*root, Seq::empty(), false, true),
{
    let mut out: Vec<LayoutLine<T>> = Vec::new();
    let prefix: Vec<PrefixPiece> = Vec::new();
    layout1::<T, N>(root, &prefix, false, true, &mut out);
    assert(lines_view(Seq::<LayoutLine<T>>::empty()) =~= Seq::empty());
    assert(prefix@ == Seq::<PrefixPiece>::empty());
    assert(Seq::<(Seq<PrefixPiece>, Option<NodeLabel<T>>)>::empty() + pattern1::<T, N>(
        *root,
        Seq::empty(),
        false,
        true,
    ) == pattern1::<T, N>(*root, Seq::empty(), false, true));
    out
}

fn layout2<T: Copy, N: TreeNode<T>>(
    node: &Option<Box<N>>,
    prefix: &Vec<PrefixPiece>,
    is_left: bool,
    out: &mut Vec<LayoutLine<T>>,
)
    ensures
        lines_view(final(out)@) == lines_view(old(out)@) + pattern2::<T, N>(
            *node,
            prefix@,
            is_left,
        ),
    decreases size_of::<T, N>(*node),
{
    if let Some(n) = node {
        proof {
            n.lemma_children_smaller();
        }
        let ghost start = lines_view(out@);
        let has_right = n.right().is_some();
        if has_right {
            let right_prefix = if prefix.len() == 0 {
                let mut p: Vec<PrefixPiece> = Vec::new();
                p.push(PrefixPiece::StartBar);
                p
            } else if is_left {
                extend_prefix(prefix, PrefixPiece::PadBar)
            } else {
                extend_prefix(prefix, PrefixPiece::BackPadBar)
            };
            proof {
                if prefix@.len() == 0 {
                    assert(right_prefix@ == seq![PrefixPiece::StartBar]);
                }
            }
            // the right child is drawn above the node
            layout2::<T, N>(n.right(), &right_prefix, false, out);
            let line_prefix = copy_prefix(&right_prefix);
            push_line(out, LayoutLine { prefix: line_prefix, label: None });
        }
        let ghost mid = lines_view(out@);
        // connector before the node value
        let connector = if prefix.len() == 0 {
            Connector::Root
        } else if is_left {
            Connector::LeftBelow
        } else {
            Connector::RightAbove
        };
        let own_prefix = copy_prefix(prefix);
        push_line(out, LayoutLine { prefix: own_prefix, label: Some(node_label(&**n, connector)) });
        let ghost mid2 = lines_view(out@);
        let has_left = n.left().is_some();
        if has_left {
            let left_prefix = if prefix.len() == 0 {
                let mut p: Vec<PrefixPiece> = Vec::new();
                p.push(PrefixPiece::StartBar);
                p
            } else if is_left {
                extend_prefix(prefix, PrefixPiece::BackPadBar)
            } else {
                extend_prefix(prefix, PrefixPiece::PadBar)
            };
            proof {
                if prefix@.len() == 0 {
                    assert(left_prefix@ == seq![PrefixPiece::StartBar]);
                }
            }
            let line_prefix = copy_prefix(&left_prefix);
            push_line(out, LayoutLine { prefix: line_prefix, label: None });
            // the left child is drawn below the node
            layout2::<T, N>(n.left(), &left_prefix, true, out);
        }
        proof {
            let own = seq![(prefix@, Some(label_of::<T, N>(**n, connector)))];
            let rp = if prefix@.len() == 0 {
                seq![PrefixPiece::StartBar]
            } else if is_left {
                prefix@.push(PrefixPiece::PadBar)
            } else {
                prefix@.push(PrefixPiece::BackPadBar)
            };
            let lp = if prefix@.len() == 0 {
                seq![PrefixPiece::StartBar]
            } else if is_left {
                prefix@.push(PrefixPiece::BackPadBar)
            } else {
                prefix@.push(PrefixPiece::PadBar)
            };
            let above = if n.spec_right() is Some {
                pattern2::<T, N>(n.spec_right(), rp, false) + seq![(rp, None)]
            } else {
                Seq::empty()
            };
            let below = if n.spec_left() is Some {
                seq![(lp, None)] + pattern2::<T, N>(n.spec_left(), lp, true)
            } else {
                Seq::empty()
            };
            assert(mid =~= start + above);
            assert(mid2 == mid + own);
            assert(lines_view(out@) =~= mid2 + below);
            assert(pattern2::<T, N>(*node, prefix@, is_left) == above + own + below);
            assert(lines_view(out@) =~= start + pattern2::<T, N>(*node, prefix@, is_left));
        }
    }
}

/// The lines of the horizontal drawing of the tree `root`; none for an
/// empty tree.
pub fn layout_pattern2<T: Copy, N: TreeNode<T>>(root: &Option<Box<N>>) -> (r: Vec<LayoutLine<T>>)
    ensures
        lines_view(r@) == pattern2::<T, N>(*root, Seq::empty(), false),
{
    let mut out: Vec<LayoutLine<T>> = Vec::new();
    let prefix: Vec<PrefixPiece> = Vec::new();
    layout2::<T, N>(root, &prefix, false, &mut out);
    assert(lines_view(Seq::<LayoutLine<T>>::empty()) =~= Seq::empty());
    assert(prefix@ == Seq::<PrefixPiece>::empty());
    assert(Seq::<(Seq<PrefixPiece>, Option<NodeLabel<T>>)>::empty() + pattern2::<T, N>(
        *root,
        Seq::empty(),
        false,
    ) == pattern2::<T, N>(*root, Seq::empty(), false));
    out
}


/// `q` begins with `p`.
pub open spec fn begins_with(q: Seq<PrefixPiece>, p: Seq<PrefixPiece>) -> bool {
    p.len() <= q.len() && q.subrange(0, p.len() as int) == p
}

/// Beginning with an indentation that begins with `p` is beginning with `p`.
proof fn lemma_begins_with_trans(q: Seq<PrefixPiece>, c: Seq<PrefixPiece>, p: Seq<PrefixPiece>)
    requires
        begins_with(q, c),
        begins_with(c, p),
    ensures
        begins_with(q, p),
{
    assert(q.subrange(0, p.len() as int) =~= c.subrange(0, p.len() as int));
}

/// An indentation continued by one piece begins with itself, and so does
/// the indentation below the root.
proof fn lemma_begins_with_push(p: Seq<PrefixPiece>, x: PrefixPiece)
    ensures
        begins_with(p.push(x), p),
        begins_with(p, p),
        begins_with(seq![x], Seq::<PrefixPiece>::empty()),
{
    assert(p.push(x).subrange(0, p.len() as int) =~= p);
    assert(p.subrange(0, p.len() as int) =~= p);
    assert(seq![x].subrange(0, 0) =~= Seq::<PrefixPiece>::empty());
}

/// Every line of the vertical drawing of a subtree begins with the
/// indentation the subtree is drawn with.
pub proof fn lemma_pattern1_indented<T: Copy, N: TreeNode<T>>(
    node: Option<Box<N>>,
    prefix: Seq<PrefixPiece>,
    is_left: bool,
    is_last: bool,
)
    ensures
        forall|i: int|
            0 <= i < pattern1::<T, N>(node, prefix, is_left, is_last).len() ==> begins_with(
                #[trigger] pattern1::<T, N>(node, prefix, is_left, is_last)[i].0,
                prefix,
            ),
    decreases size_of::<T, N>(node),
{
    if let Some(n) = node {
        n.lemma_children_smaller();
        let child_prefix = if prefix.len() == 0 {
            seq![PrefixPiece::Indent]
        } else if is_last {
            prefix.push(PrefixPiece::Blank)
        } else {
            prefix.push(PrefixPiece::Bar)
        };
        let connector = if prefix.len() == 0 {
            Connector::Root
        } else if is_left {
            if is_last {
                Connector::LeftLast
            } else {
                Connector::LeftMiddle
            }
        } else {
            Connector::RightLast
        };
        let own = seq![(prefix, Some(label_of::<T, N>(*n, connector)))];
        let lp = pattern1::<T, N>(n.spec_left(), child_prefix, true, n.spec_right() is None);
        let rp = pattern1::<T, N>(n.spec_right(), child_prefix, false, true);
        lemma_pattern1_indented::<T, N>(n.spec_left(), child_prefix, true, n.spec_right() is None);
        lemma_pattern1_indented::<T, N>(n.spec_right(), child_prefix, false, true);
        let lines = pattern1::<T, N>(node, prefix, is_left, is_last);
        assert(lines == own + lp + rp);
        assert forall|i: int| 0 <= i < lines.len() implies begins_with(#[trigger] lines[i].0, prefix) by {
            lemma_begins_with_push(prefix, PrefixPiece::Bar);
            lemma_begins_with_push(prefix, PrefixPiece::Blank);
            lemma_begins_with_push(prefix, PrefixPiece::Indent);
            if prefix.len() == 0 {
                assert(prefix =~= Seq::<PrefixPiece>::empty());
            }
            if i == 0 {
                assert(lines[i].0 == prefix);
            } else {
                let q = lines[i].0;
                if i < 1 + lp.len() {
                    assert(q == lp[i - 1].0);
                } else {
                    assert(q == rp[i - 1 - lp.len()].0);
                }
                assert(begins_with(child_prefix, prefix));
                lemma_begins_with_trans(q, child_prefix, prefix);
            }
        }
    }
}

/// In the vertical drawing a node's line comes first, and every line below
/// it, those of all its descendants, continues its indentation: with four
/// blanks where the node is the last child of its parent, with a bar where
/// a sibling follows it (the bar leads down to that sibling), and with two
/// blanks below the root. The node's connector is `├── L` for a left child
/// followed by a right sibling, `└── L` for a left child without one and
/// `└── R` for a right child; its first child, the left one where there is
/// one, comes on the next line.
pub proof fn lemma_pattern1_descendants<T: Copy, N: TreeNode<T>>(
    n: N,
    prefix: Seq<PrefixPiece>,
    is_left: bool,
    is_last: bool,
)
    ensures
        ({
            let lines = pattern1::<T, N>(Some(Box::new(n)), prefix, is_left, is_last);
            let below = if prefix.len() == 0 {
                seq![PrefixPiece::Indent]
            } else if is_last {
                prefix.push(PrefixPiece::Blank)
            } else {
                prefix.push(PrefixPiece::Bar)
            };
            let connector = if prefix.len() == 0 {
                Connector::Root
            } else if is_left && !is_last {
                Connector::LeftMiddle
            } else if is_left {
                Connector::LeftLast
            } else {
                Connector::RightLast
            };
            &&& lines.len() > 0
            &&& lines[0] == (prefix, Some(label_of::<T, N>(n, connector)))
            &&& forall|i: int| 1 <= i < lines.len() ==> begins_with(#[trigger] lines[i].0, below)
            &&& n.spec_left() matches Some(l) ==> lines[1] == (
                below,
                Some(
                    label_of::<T, N>(
                        *l,
                        if n.spec_right() is Some {
                            Connector::LeftMiddle
                        } else {
                            Connector::LeftLast
                        },
                    ),
                ),
            )
            &&& (n.spec_left() is None && n.spec_right() is Some) ==> lines[1] == (
                below,
                Some(label_of::<T, N>(*n.spec_right().unwrap(), Connector::RightLast)),
            )
            &&& (n.spec_left() is None && n.spec_right() is None) ==> lines.len() == 1
        }),
{
    n.lemma_children_smaller();
    let below = if prefix.len() == 0 {
        seq![PrefixPiece::Indent]
    } else if is_last {
        prefix.push(PrefixPiece::Blank)
    } else {
        prefix.push(PrefixPiece::Bar)
    };
    let lp = pattern1::<T, N>(n.spec_left(), below, true, n.spec_right() is None);
    let rp = pattern1::<T, N>(n.spec_right(), below, false, true);
    lemma_pattern1_indented::<T, N>(n.spec_left(), below, true, n.spec_right() is None);
    lemma_pattern1_indented::<T, N>(n.spec_right(), below, false, true);
    let lines = pattern1::<T, N>(Some(Box::new(n)), prefix, is_left, is_last);
    assert forall|i: int| 1 <= i < lines.len() implies begins_with(#[trigger] lines[i].0, below) by {
        if i < 1 + lp.len() {
            assert(lines[i].0 == lp[i - 1].0);
        } else {
            assert(lines[i].0 == rp[i - 1 - lp.len()].0);
        }
    }
}

/// Every line of the horizontal drawing of a subtree begins with the
/// indentation the subtree is drawn with.
pub proof fn lemma_pattern2_indented<T: Copy, N: TreeNode<T>>(
    node: Option<Box<N>>,
    prefix: Seq<PrefixPiece>,
    is_left: bool,
)
    ensures
        forall|i: int|
            0 <= i < pattern2::<T, N>(node, prefix, is_left).len() ==> begins_with(
                #[trigger] pattern2::<T, N>(node, prefix, is_left)[i].0,
                prefix,
            ),
    decreases size_of::<T, N>(node),
{
    if let Some(n) = node {
        n.lemma_children_smaller();
        let up = if prefix.len() == 0 {
            seq![PrefixPiece::StartBar]
        } else if is_left {
            prefix.push(PrefixPiece::PadBar)
        } else {
            prefix.push(PrefixPiece::BackPadBar)
        };
        let down = if prefix.len() == 0 {
            seq![PrefixPiece::StartBar]
        } else if is_left {
            prefix.push(PrefixPiece::BackPadBar)
        } else {
            prefix.push(PrefixPiece::PadBar)
        };
        lemma_pattern2_indented::<T, N>(n.spec_right(), up, false);
        lemma_pattern2_indented::<T, N>(n.spec_left(), down, true);
        lemma_pattern2_parts::<T, N>(*n, prefix, is_left);
        let lines = pattern2::<T, N>(node, prefix, is_left);
        assert forall|i: int| 0 <= i < lines.len() implies begins_with(#[trigger] lines[i].0, prefix) by {
            let q = lines[i].0;
            lemma_begins_with_push(prefix, PrefixPiece::PadBar);
            lemma_begins_with_push(prefix, PrefixPiece::BackPadBar);
            lemma_begins_with_push(prefix, PrefixPiece::StartBar);
            if prefix.len() == 0 {
                assert(prefix =~= Seq::<PrefixPiece>::empty());
            }
            assert(begins_with(up, prefix) && begins_with(down, prefix));
            let k = choose|k: int|
                0 <= k < lines.len() && lines[k].0 == prefix && (lines[k].1 matches Some(l)
                    && l.value == n.spec_value()) && (forall|i: int|
                    0 <= i < k ==> begins_with(#[trigger] lines[i].0, pattern2_up(prefix, is_left)))
                    && (forall|i: int|
                    k < i < lines.len() ==> begins_with(
                        #[trigger] lines[i].0,
                        pattern2_down(prefix, is_left),
                    ));
            if i < k {
                lemma_begins_with_trans(q, up, prefix);
            } else if i > k {
                lemma_begins_with_trans(q, down, prefix);
            }
        }
    }
}

/// The horizontal drawing of a node, in three parts: the lines above its
/// own line begin with the indentation of its right subtree, the lines
/// below with that of its left subtree.
proof fn lemma_pattern2_parts<T: Copy, N: TreeNode<T>>(
    n: N,
    prefix: Seq<PrefixPiece>,
    is_left: bool,
)
    requires
        forall|i: int|
            0 <= i < pattern2::<T, N>(n.spec_right(), pattern2_up(prefix, is_left), false).len()
                ==> begins_with(
                #[trigger] pattern2::<T, N>(n.spec_right(), pattern2_up(prefix, is_left), false)[i].0,
                pattern2_up(prefix, is_left),
            ),
        forall|i: int|
            0 <= i < pattern2::<T, N>(n.spec_left(), pattern2_down(prefix, is_left), true).len()
                ==> begins_with(
                #[trigger] pattern2::<T, N>(n.spec_left(), pattern2_down(prefix, is_left), true)[i].0,
                pattern2_down(prefix, is_left),
            ),
    ensures
        ({
            let lines = pattern2::<T, N>(Some(Box::new(n)), prefix, is_left);
            exists|k: int|
                0 <= k < lines.len() && lines[k].0 == prefix && (lines[k].1 matches Some(l)
                    && l.value == n.spec_value()) && (forall|i: int|
                    0 <= i < k ==> begins_with(#[trigger] lines[i].0, pattern2_up(prefix, is_left)))
                    && (forall|i: int|
                    k < i < lines.len() ==> begins_with(
                        #[trigger] lines[i].0,
                        pattern2_down(prefix, is_left),
                    )) && pattern2_joins(lines, k, n, prefix, is_left)
        }),
{
    n.lemma_children_smaller();
    let up = pattern2_up(prefix, is_left);
    let down = pattern2_down(prefix, is_left);
    let lines = pattern2::<T, N>(Some(Box::new(n)), prefix, is_left);
    let rlines = pattern2::<T, N>(n.spec_right(), up, false);
    let llines = pattern2::<T, N>(n.spec_left(), down, true);
    let above: Seq<(Seq<PrefixPiece>, Option<NodeLabel<T>>)> = if n.spec_right() is Some {
        rlines + seq![(up, None)]
    } else {
        Seq::empty()
    };
    let below: Seq<(Seq<PrefixPiece>, Option<NodeLabel<T>>)> = if n.spec_left() is Some {
        seq![(down, None)] + llines
    } else {
        Seq::empty()
    };
    let k = above.len() as int;
    assert(up.subrange(0, up.len() as int) =~= up);
    assert(down.subrange(0, down.len() as int) =~= down);
    assert forall|i: int| 0 <= i < k implies begins_with(#[trigger] lines[i].0, up) by {
        assert(lines[i] == above[i]);
        if i < rlines.len() {
            assert(above[i] == rlines[i]);
        }
    }
    assert forall|i: int| k < i < lines.len() implies begins_with(#[trigger] lines[i].0, down) by {
        assert(lines[i] == below[i - k - 1]);
        if i > k + 1 {
            assert(below[i - k - 1] == llines[i - k - 2]);
        }
    }
    assert(lines[k].0 == prefix);
    if n.spec_right() is Some {
        assert(lines[k - 1] == above[k - 1]);
    }
    if n.spec_left() is Some {
        assert(lines[k + 1] == below[0]);
    }
    assert(pattern2_joins(lines, k, n, prefix, is_left));
}

/// Around the line `k` of node `n` in its horizontal drawing `lines`: the
/// node's label with its connector (`┌── R` above for a right child, `└── L`
/// below for a left child), a joining line of indentation only between it
/// and its right subtree above and its left subtree below, and no line on a
/// side without a subtree.
pub open spec fn pattern2_joins<T: Copy, N: TreeNode<T>>(
    lines: Seq<(Seq<PrefixPiece>, Option<NodeLabel<T>>)>,
    k: int,
    n: N,
    prefix: Seq<PrefixPiece>,
    is_left: bool,
) -> bool {
    let connector = if prefix.len() == 0 {
        Connector::Root
    } else if is_left {
        Connector::LeftBelow
    } else {
        Connector::RightAbove
    };
    &&& lines[k].1 == Some(label_of::<T, N>(n, connector))
    &&& n.spec_right() is None ==> k == 0
    &&& n.spec_right() is Some ==> k >= 2 && lines[k - 1].1 is None
    &&& n.spec_left() is None ==> k == lines.len() - 1
    &&& n.spec_left() is Some ==> k + 2 < lines.len() && lines[k + 1].1 is None
}

/// The indentation of the right subtree in the horizontal drawing.
spec fn pattern2_up(prefix: Seq<PrefixPiece>, is_left: bool) -> Seq<PrefixPiece> {
    if prefix.len() == 0 {
        seq![PrefixPiece::StartBar]
    } else if is_left {
        prefix.push(PrefixPiece::PadBar)
    } else {
        prefix.push(PrefixPiece::BackPadBar)
    }
}

/// The indentation of the left subtree in the horizontal drawing.
spec fn pattern2_down(prefix: Seq<PrefixPiece>, is_left: bool) -> Seq<PrefixPiece> {
    if prefix.len() == 0 {
        seq![PrefixPiece::StartBar]
    } else if is_left {
        prefix.push(PrefixPiece::BackPadBar)
    } else {
        prefix.push(PrefixPiece::PadBar)
    }
}

/// In the horizontal drawing a node's right subtree is drawn above its own
/// line and its left subtree below it. Below the root both sides are
/// indented by two blanks and a bar. Otherwise the side that continues
/// outwards (the right subtree of a right child, the left subtree of a left
/// child) steps back one column first (backspace, four blanks, bar), and
/// the side that turns inwards is indented by three blanks and a bar.
pub proof fn lemma_pattern2_sides<T: Copy, N: TreeNode<T>>(
    n: N,
    prefix: Seq<PrefixPiece>,
    is_left: bool,
)
    ensures
        ({
            let lines = pattern2::<T, N>(Some(Box::new(n)), prefix, is_left);
            let up = if prefix.len() == 0 {
                seq![PrefixPiece::StartBar]
            } else if is_left {
                prefix.push(PrefixPiece::PadBar)
            } else {
                prefix.push(PrefixPiece::BackPadBar)
            };
            let down = if prefix.len() == 0 {
                seq![PrefixPiece::StartBar]
            } else if is_left {
                prefix.push(PrefixPiece::BackPadBar)
            } else {
                prefix.push(PrefixPiece::PadBar)
            };
            exists|k: int|
                0 <= k < lines.len() && lines[k].0 == prefix && (lines[k].1 matches Some(l)
                    && l.value == n.spec_value()) && (forall|i: int|
                    0 <= i < k ==> begins_with(#[trigger] lines[i].0, up)) && (forall|i: int|
                    k < i < lines.len() ==> begins_with(#[trigger] lines[i].0, down))
                    && pattern2_joins(lines, k, n, prefix, is_left)
        }),
{
    n.lemma_children_smaller();
    lemma_pattern2_indented::<T, N>(n.spec_right(), pattern2_up(prefix, is_left), false);
    lemma_pattern2_indented::<T, N>(n.spec_left(), pattern2_down(prefix, is_left), true);
    lemma_pattern2_parts::<T, N>(n, prefix, is_left);
}

} // verus!
