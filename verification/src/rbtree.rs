//! Red-black tree over `u32` keys.
//!
//! Every node owns its two subtrees. The way from the root to the node under
//! repair is the chain of calls in progress: where a repair has to reach the
//! parent or the sibling of a node, it is carried out by the call that owns
//! the parent. A valid tree over 32-bit keys is at most 65 levels tall, so
//! the calls never nest deeper than that.

use crate::diagram::{depicts, Branch, DiagramRow, RowView};
use crate::seqs::{lemma_concat_has, lemma_push_has};
use crate::update::{update_verdict, UpdateError};
use vstd::arithmetic::power2::{
    lemma2_to64, lemma2_to64_rest, lemma_pow2_strictly_increases, lemma_pow2_unfold, pow2,
};
use vstd::prelude::*;

verus! {

/// The color of a node; an absent child counts as black.
#[derive(Clone, Copy, Debug, PartialEq, Eq, Structural)]
pub enum NodeColor {
    Red,
    Black,
}

type RedBlackTree = Option<Box<TreeNode<u32>>>;

/// One node: a color, a key and two exclusively owned subtrees.
struct TreeNode<T> {
    color: NodeColor,
    key: T,
    left: Option<Box<TreeNode<T>>>,
    right: Option<Box<TreeNode<T>>>,
}

/// A red-black tree; `None` at the root is the empty tree.
pub struct RBTree {
    root: RedBlackTree,
}

/// Every element is smaller than all elements after it.
pub open spec fn strictly_increasing(s: Seq<u32>) -> bool {
    forall|i: int, j: int| 0 <= i < j < s.len() ==> s[i] < s[j]
}

/// A strictly increasing sequence of 32-bit keys spans at least its length.
proof fn lemma_increasing_span(s: Seq<u32>, i: int)
    requires
        strictly_increasing(s),
        0 <= i < s.len(),
    ensures
        s[0] + i <= s[i],
    decreases i,
{
    if i > 0 {
        lemma_increasing_span(s, i - 1);
    }
}

/// There are at most 2^32 distinct 32-bit keys.
proof fn lemma_increasing_len(s: Seq<u32>)
    requires
        strictly_increasing(s),
    ensures
        s.len() <= 0x1_0000_0000,
{
    if s.len() > 0 {
        lemma_increasing_span(s, s.len() - 1);
    }
}

impl TreeNode<u32> {
    /// The tree whose root has the given color, key and subtrees.
    spec fn node(c: NodeColor, l: RedBlackTree, k: u32, r: RedBlackTree) -> RedBlackTree {
        Some(Box::new(TreeNode { color: c, key: k, left: l, right: r }))
    }

    /// The keys stored in a subtree.
    spec fn keys_of(t: RedBlackTree) -> Set<u32>
        decreases t,
    {
        match t {
            None => Set::empty(),
            Some(n) => Self::keys_of(n.left).union(Self::keys_of(n.right)).insert(n.key),
        }
    }

    /// Search-tree ordering at every node.
    spec fn ordered(t: RedBlackTree) -> bool
        decreases t,
    {
        match t {
            None => true,
            Some(n) => {
                &&& Self::ordered(n.left)
                &&& Self::ordered(n.right)
                &&& forall|k: u32| #[trigger] Self::keys_of(n.left).contains(k) ==> k < n.key
                &&& forall|k: u32| #[trigger] Self::keys_of(n.right).contains(k) ==> n.key < k
            },
        }
    }

    /// The color of the root of a subtree; black for an absent one.
    spec fn color_of(t: RedBlackTree) -> NodeColor {
        match t {
            None => NodeColor::Black,
            Some(n) => n.color,
        }
    }

    /// The root of the subtree is a red node.
    spec fn is_red(t: RedBlackTree) -> bool {
        Self::color_of(t) == NodeColor::Red
    }

    /// The number of black nodes on the leftmost path.
    spec fn black_height(t: RedBlackTree) -> nat
        decreases t,
    {
        match t {
            None => 0,
            Some(n) => Self::black_height(n.left) + if n.color == NodeColor::Black {
                1nat
            } else {
                0nat
            },
        }
    }

    /// At every node both subtrees have the same black height, so every path
    /// from a node down to an absent child passes the same number of black nodes.
    spec fn even_black(t: RedBlackTree) -> bool
        decreases t,
    {
        match t {
            None => true,
            Some(n) => {
                &&& Self::even_black(n.left)
                &&& Self::even_black(n.right)
                &&& Self::black_height(n.left) == Self::black_height(n.right)
            },
        }
    }

    /// No red node has a red child.
    spec fn no_red_red(t: RedBlackTree) -> bool
        decreases t,
    {
        match t {
            None => true,
            Some(n) => {
                &&& Self::no_red_red(n.left)
                &&& Self::no_red_red(n.right)
                &&& n.color == NodeColor::Red ==> !Self::is_red(n.left) && !Self::is_red(n.right)
            },
        }
    }

    /// The invariants of a subtree; its root may be of either color.
    spec fn rb(t: RedBlackTree) -> bool {
        Self::ordered(t) && Self::even_black(t) && Self::no_red_red(t)
    }

    /// The number of nodes on the longest path from the root down.
    spec fn height_of(t: RedBlackTree) -> nat
        decreases t,
    {
        match t {
            None => 0,
            Some(n) => {
                let l = Self::height_of(n.left);
                let r = Self::height_of(n.right);
                if l > r {
                    l + 1
                } else {
                    r + 1
                }
            },
        }
    }

    /// The number of nodes.
    spec fn size_of(t: RedBlackTree) -> nat
        decreases t,
    {
        match t {
            None => 0,
            Some(n) => Self::size_of(n.left) + Self::size_of(n.right) + 1,
        }
    }

    /// The number of nodes without children.
    spec fn leaves_of(t: RedBlackTree) -> nat
        decreases t,
    {
        match t {
            None => 0,
            Some(n) => if n.left is None && n.right is None {
                1
            } else {
                Self::leaves_of(n.left) + Self::leaves_of(n.right)
            },
        }
    }

    /// Keys in the order left subtree, node, right subtree.
    spec fn in_order(t: RedBlackTree) -> Seq<u32>
        decreases t,
    {
        match t {
            None => Seq::empty(),
            Some(n) => Self::in_order(n.left).push(n.key) + Self::in_order(n.right),
        }
    }

    /// Keys in the order node, left subtree, right subtree.
    spec fn pre_order(t: RedBlackTree) -> Seq<u32>
        decreases t,
    {
        match t {
            None => Seq::empty(),
            Some(n) => seq![n.key] + Self::pre_order(n.left) + Self::pre_order(n.right),
        }
    }

    /// Keys in the order left subtree, right subtree, node.
    spec fn post_order(t: RedBlackTree) -> Seq<u32>
        decreases t,
    {
        match t {
            None => Seq::empty(),
            Some(n) => (Self::post_order(n.left) + Self::post_order(n.right)).push(n.key),
        }
    }

    /// One step of each recursive definition.
    proof fn lemma_unfold(t: RedBlackTree)
        ensures
            t is None ==> Self::keys_of(t) == Set::<u32>::empty() && Self::black_height(t) == 0
                && Self::rb(t) && Self::size_of(t) == 0 && Self::height_of(t) == 0,
            t matches Some(n) ==> {
                &&& Self::keys_of(t) == Self::keys_of(n.left).union(Self::keys_of(n.right)).insert(
                    n.key,
                )
                &&& Self::keys_of(t).contains(n.key)
                &&& Self::black_height(t) == Self::black_height(n.left) + if n.color
                    == NodeColor::Black {
                    1nat
                } else {
                    0nat
                }
                &&& Self::even_black(t) == (Self::even_black(n.left) && Self::even_black(n.right)
                    && Self::black_height(n.left) == Self::black_height(n.right))
                &&& Self::no_red_red(t) == (Self::no_red_red(n.left) && Self::no_red_red(n.right)
                    && (n.color == NodeColor::Red ==> !Self::is_red(n.left) && !Self::is_red(
                    n.right,
                )))
                &&& Self::ordered(t) ==> Self::ordered(n.left) && Self::ordered(n.right)
                &&& Self::size_of(t) == Self::size_of(n.left) + Self::size_of(n.right) + 1
            },
    {
    }

    /// Lifting the right child keeps the keys and the search-tree ordering.
    proof fn lemma_rotated_left(t: RedBlackTree)
        requires
            t matches Some(x) && x.right is Some,
        ensures
            t matches Some(x) && (x.right matches Some(y) && ({
                let u = Self::node(y.color, Self::node(x.color, x.left, x.key, y.left), y.key, y.right);
                &&& Self::keys_of(u) == Self::keys_of(t)
                &&& Self::size_of(u) == Self::size_of(t)
                &&& Self::ordered(t) ==> Self::ordered(u)
            })),
    {
        let x = t->0;
        let y = x.right->0;
        let low = Self::node(x.color, x.left, x.key, y.left);
        let u = Self::node(y.color, low, y.key, y.right);
        Self::lemma_unfold(t);
        Self::lemma_unfold(x.right);
        Self::lemma_unfold(low);
        Self::lemma_unfold(u);
        assert(Self::keys_of(u) =~= Self::keys_of(t));
        if Self::ordered(t) {
            assert(Self::ordered(x.right));
            assert(Self::keys_of(x.right).contains(y.key));
            assert forall|k: u32| #[trigger] Self::keys_of(y.left).contains(k) implies x.key
                < k by {
                assert(Self::keys_of(x.right).contains(k));
            }
            assert(Self::ordered(low));
            assert forall|k: u32| #[trigger] Self::keys_of(low).contains(k) implies k < y.key by {
                if Self::keys_of(x.left).contains(k) {
                    assert(k < x.key);
                }
            }
            assert(Self::ordered(u));
        }
    }

    /// Lifting the left child keeps the keys and the search-tree ordering.
    proof fn lemma_rotated_right(t: RedBlackTree)
        requires
            t matches Some(x) && x.left is Some,
        ensures
            t matches Some(x) && (x.left matches Some(y) && ({
                let u = Self::node(y.color, y.left, y.key, Self::node(x.color, y.right, x.key, x.right));
                &&& Self::keys_of(u) == Self::keys_of(t)
                &&& Self::size_of(u) == Self::size_of(t)
                &&& Self::ordered(t) ==> Self::ordered(u)
            })),
    {
        let x = t->0;
        let y = x.left->0;
        let low = Self::node(x.color, y.right, x.key, x.right);
        let u = Self::node(y.color, y.left, y.key, low);
        Self::lemma_unfold(t);
        Self::lemma_unfold(x.left);
        Self::lemma_unfold(low);
        Self::lemma_unfold(u);
        assert(Self::keys_of(u) =~= Self::keys_of(t));
        if Self::ordered(t) {
            assert(Self::ordered(x.left));
            assert(Self::keys_of(x.left).contains(y.key));
            assert forall|k: u32| #[trigger] Self::keys_of(y.right).contains(k) implies k
                < x.key by {
                assert(Self::keys_of(x.left).contains(k));
            }
            assert(Self::ordered(low));
            assert forall|k: u32| #[trigger] Self::keys_of(low).contains(k) implies y.key < k by {
                if Self::keys_of(x.right).contains(k) {
                    assert(x.key < k);
                }
            }
            assert(Self::ordered(u));
        }
    }

    /// Repainting the root changes neither the keys nor the ordering.
    proof fn lemma_repainted(t: RedBlackTree, c: NodeColor)
        requires
            t is Some,
        ensures
            t matches Some(n) && ({
                let u = Self::node(c, n.left, n.key, n.right);
                &&& Self::keys_of(u) == Self::keys_of(t)
                &&& Self::size_of(u) == Self::size_of(t)
                &&& Self::ordered(u) == Self::ordered(t)
                &&& Self::even_black(u) == Self::even_black(t)
            }),
    {
    }

    /// `t` with its root painted `c`.
    spec fn repaint(t: RedBlackTree, c: NodeColor) -> RedBlackTree {
        match t {
            None => None,
            Some(n) => Self::node(c, n.left, n.key, n.right),
        }
    }

    /// The root of `t` is red and has a red child.
    spec fn clashes(t: RedBlackTree) -> bool {
        t matches Some(p) && p.color == NodeColor::Red && (Self::is_red(p.left) || Self::is_red(
            p.right,
        ))
    }

    /// What the repair after an insertion makes of a subtree with a black
    /// root whose left child is red and has a red child; any other subtree
    /// is left as it is.
    spec fn relieve_left(t: RedBlackTree) -> RedBlackTree {
        match t {
            Some(g) if Self::clashes(g.left) => {
                let p = g.left->0;
                if Self::is_red(g.right) {
                    Self::node(
                        NodeColor::Red,
                        Self::repaint(g.left, NodeColor::Black),
                        g.key,
                        Self::repaint(g.right, NodeColor::Black),
                    )
                } else if !Self::is_red(p.left) {
                    let c = p.right->0;
                    Self::node(
                        NodeColor::Black,
                        Self::node(NodeColor::Red, p.left, p.key, c.left),
                        c.key,
                        Self::node(NodeColor::Red, c.right, g.key, g.right),
                    )
                } else {
                    Self::node(
                        NodeColor::Black,
                        p.left,
                        p.key,
                        Self::node(NodeColor::Red, p.right, g.key, g.right),
                    )
                }
            },
            _ => t,
        }
    }

    /// The mirror image of [`Self::relieve_left`].
    spec fn relieve_right(t: RedBlackTree) -> RedBlackTree {
        match t {
            Some(g) if Self::clashes(g.right) => {
                let p = g.right->0;
                if Self::is_red(g.left) {
                    Self::node(
                        NodeColor::Red,
                        Self::repaint(g.left, NodeColor::Black),
                        g.key,
                        Self::repaint(g.right, NodeColor::Black),
                    )
                } else if !Self::is_red(p.right) {
                    let c = p.left->0;
                    Self::node(
                        NodeColor::Black,
                        Self::node(NodeColor::Red, g.left, g.key, c.left),
                        c.key,
                        Self::node(NodeColor::Red, c.right, p.key, p.right),
                    )
                } else {
                    Self::node(
                        NodeColor::Black,
                        Self::node(NodeColor::Red, g.left, g.key, p.left),
                        p.key,
                        p.right,
                    )
                }
            },
            _ => t,
        }
    }

    /// The subtree that inserting `v` into `t` gives, before the root of the
    /// whole tree is painted black: the key becomes a red node where the
    /// search for it ends, and every black node on the way back up has the
    /// side that took the key repaired. A key that `t` holds leaves it as it is.
    spec fn grown(t: RedBlackTree, v: u32) -> RedBlackTree
        decreases t,
    {
        match t {
            None => Self::node(NodeColor::Red, None, v, None),
            Some(n) => if n.key == v {
                t
            } else if n.key > v {
                let raw = Self::node(n.color, Self::grown(n.left, v), n.key, n.right);
                if n.color == NodeColor::Black {
                    Self::relieve_left(raw)
                } else {
                    raw
                }
            } else {
                let raw = Self::node(n.color, n.left, n.key, Self::grown(n.right, v));
                if n.color == NodeColor::Black {
                    Self::relieve_right(raw)
                } else {
                    raw
                }
            },
        }
    }

    /// What the repair makes of a subtree whose left side is one black node
    /// short of a sibling with a black root, and whether the shortage passes
    /// upward.
    spec fn mend_left_of_black(t: RedBlackTree) -> (RedBlackTree, bool) {
        match t {
            None => (t, false),
            Some(p) => match p.right {
                None => (t, false),
                Some(s) => if Self::is_red(s.left) {
                    let n = s.left->0;
                    (
                        Self::node(
                            p.color,
                            Self::node(NodeColor::Black, p.left, p.key, n.left),
                            n.key,
                            Self::node(s.color, n.right, s.key, s.right),
                        ),
                        false,
                    )
                } else if Self::is_red(s.right) {
                    (
                        Self::node(
                            p.color,
                            Self::node(NodeColor::Black, p.left, p.key, s.left),
                            s.key,
                            Self::repaint(s.right, s.color),
                        ),
                        false,
                    )
                } else {
                    (
                        Self::node(
                            NodeColor::Black,
                            p.left,
                            p.key,
                            Self::repaint(p.right, NodeColor::Red),
                        ),
                        p.color == NodeColor::Black,
                    )
                },
            },
        }
    }

    /// What the repair makes of a subtree whose left side is one black node
    /// short, and whether the shortage passes upward. A red sibling is first
    /// lifted above the root; the old root, now red and one level down, is
    /// then repaired against its new, black sibling.
    spec fn mend_left(t: RedBlackTree) -> (RedBlackTree, bool) {
        match t {
            Some(p) if Self::is_red(p.right) => {
                let s = p.right->0;
                let inner = Self::mend_left_of_black(
                    Self::node(NodeColor::Red, p.left, p.key, s.left),
                );
                (Self::node(NodeColor::Black, inner.0, s.key, s.right), inner.1)
            },
            _ => Self::mend_left_of_black(t),
        }
    }

    /// What the repair makes of a subtree whose right side is one black node
    /// short of a sibling with a black root, and whether the shortage passes
    /// upward. As on the other side, the sibling's left child is looked at
    /// first: here it is the outer one, so that a sibling with two red
    /// children is lifted by a single rotation.
    spec fn mend_right_of_black(t: RedBlackTree) -> (RedBlackTree, bool) {
        match t {
            None => (t, false),
            Some(p) => match p.left {
                None => (t, false),
                Some(s) => if Self::is_red(s.left) {
                    (
                        Self::node(
                            p.color,
                            Self::repaint(s.left, s.color),
                            s.key,
                            Self::node(NodeColor::Black, s.right, p.key, p.right),
                        ),
                        false,
                    )
                } else if Self::is_red(s.right) {
                    let n = s.right->0;
                    (
                        Self::node(
                            p.color,
                            Self::node(s.color, s.left, s.key, n.left),
                            n.key,
                            Self::node(NodeColor::Black, n.right, p.key, p.right),
                        ),
                        false,
                    )
                } else {
                    (
                        Self::node(
                            NodeColor::Black,
                            Self::repaint(p.left, NodeColor::Red),
                            p.key,
                            p.right,
                        ),
                        p.color == NodeColor::Black,
                    )
                },
            },
        }
    }

    /// What the repair makes of a subtree whose right side is one black node
    /// short, and whether the shortage passes upward. A red sibling is first
    /// lifted above the root; the old root, now red and one level down, is
    /// then repaired against its new, black sibling.
    spec fn mend_right(t: RedBlackTree) -> (RedBlackTree, bool) {
        match t {
            Some(p) if Self::is_red(p.left) => {
                let s = p.left->0;
                let inner = Self::mend_right_of_black(
                    Self::node(NodeColor::Red, s.right, p.key, p.right),
                );
                (Self::node(NodeColor::Black, s.left, s.key, inner.0), inner.1)
            },
            _ => Self::mend_right_of_black(t),
        }
    }

    /// The key at the right end of a tree.
    spec fn max_key(t: RedBlackTree) -> u32
        decreases t,
    {
        match t {
            None => 0,
            Some(n) => if n.right is None {
                n.key
            } else {
                Self::max_key(n.right)
            },
        }
    }

    /// What is left when a root with at most one child is unlinked, and
    /// whether that leaves the place one black node short.
    spec fn spliced(t: RedBlackTree) -> (RedBlackTree, bool) {
        match t {
            None => (t, false),
            Some(n) => {
                let child = if n.left is Some {
                    n.left
                } else {
                    n.right
                };
                let both_black = !Self::is_red(child) && n.color == NodeColor::Black;
                if child is None || both_black {
                    (child, both_black)
                } else {
                    (Self::repaint(child, NodeColor::Black), false)
                }
            },
        }
    }

    /// The subtree that deleting `v` leaves of `t`, and whether it has come
    /// up one black node short. A node with two children takes the largest
    /// key of its left subtree, and that key's node is removed instead; a
    /// node with at most one child is unlinked; every node on the way back
    /// up repairs a shortage on the side it came from.
    spec fn shrunk(t: RedBlackTree, v: u32) -> (RedBlackTree, bool)
        decreases t,
    {
        match t {
            None => (t, false),
            Some(n) => if v < n.key {
                let sub = Self::shrunk(n.left, v);
                let raw = Self::node(n.color, sub.0, n.key, n.right);
                if sub.1 {
                    Self::mend_left(raw)
                } else {
                    (raw, false)
                }
            } else if v > n.key {
                let sub = Self::shrunk(n.right, v);
                let raw = Self::node(n.color, n.left, n.key, sub.0);
                if sub.1 {
                    Self::mend_right(raw)
                } else {
                    (raw, false)
                }
            } else if n.left is Some && n.right is Some {
                let m = Self::max_key(n.left);
                let sub = Self::shrunk(n.left, m);
                let raw = Self::node(n.color, sub.0, m, n.right);
                if sub.1 {
                    Self::mend_left(raw)
                } else {
                    (raw, false)
                }
            } else {
                Self::spliced(t)
            },
        }
    }

    /// A subtree that is sound but for one thing: its root may be red and
    /// have one red child.
    spec fn almost(t: RedBlackTree) -> bool {
        match t {
            None => true,
            Some(n) => {
                &&& Self::no_red_red(n.left)
                &&& Self::no_red_red(n.right)
                &&& !(n.color == NodeColor::Red && Self::is_red(n.left) && Self::is_red(n.right))
            },
        }
    }

    /// What `insert_rebalance` finds below a black node: the subtree on the
    /// side that took the new key is sound but for a red root with one red
    /// child, and the other subtree is sound.
    spec fn strained(t: RedBlackTree, left_side: bool) -> bool {
        &&& t matches Some(g) && g.color == NodeColor::Black && (if left_side {
            Self::almost(g.left) && Self::no_red_red(g.right)
        } else {
            Self::almost(g.right) && Self::no_red_red(g.left)
        })
        &&& Self::ordered(t)
        &&& Self::even_black(t)
    }

    /// What `insert_rebalance` leaves: a sound subtree with the same keys and
    /// the same black height.
    spec fn relieved(before: RedBlackTree, after: RedBlackTree) -> bool {
        &&& Self::keys_of(after) == Self::keys_of(before)
        &&& Self::rb(after)
        &&& Self::black_height(after) == Self::black_height(before)
    }

    /// The repair of [`Self::insert_rebalance`] where the left subtree took the new key.
    fn rebalance_left(root_node: &mut RedBlackTree)
        requires
            Self::strained(*old(root_node), true),
        ensures
            Self::relieved(*old(root_node), *final(root_node)),
            *final(root_node) == Self::relieve_left(*old(root_node)),
    {
        let ghost g = (*old(root_node))->0;
        proof {
            Self::lemma_unfold(*root_node);
            Self::lemma_unfold(g.left);
            Self::lemma_unfold(g.right);
            if g.left is Some {
                Self::lemma_unfold(g.left->0.left);
                Self::lemma_unfold(g.left->0.right);
            }
        }
        let grandparent = root_node.as_ref().unwrap();
        if !(RBTree::get_color(&grandparent.left) == NodeColor::Red && RBTree::has_red_child(
            &grandparent.left,
        )) {
            return ;
        }
        let uncle_red = RBTree::get_color(&grandparent.right) == NodeColor::Red;
        let inner = RBTree::get_color(&grandparent.left.as_ref().unwrap().left) != NodeColor::Red;
        let grandparent = root_node.as_mut().unwrap();
        if uncle_red {
            RBTree::reset_color(&mut grandparent.right, NodeColor::Black);
            RBTree::reset_color(&mut grandparent.left, NodeColor::Black);
            RBTree::reset_color(root_node, NodeColor::Red);
            proof {
                Self::lemma_unfold(*root_node);
                Self::lemma_unfold((*root_node)->0.left);
                Self::lemma_unfold((*root_node)->0.right);
            }
        } else {
            if inner {
                RBTree::left_rotation(&mut grandparent.left);
            }
            RBTree::reset_color(&mut grandparent.left, NodeColor::Black);
            assert(Self::ordered(*root_node) && Self::keys_of(*root_node) == Self::keys_of(
                *old(root_node),
            )) by {
                Self::lemma_unfold(*root_node);
            }
            RBTree::reset_color(root_node, NodeColor::Red);
            RBTree::right_rotation(root_node);
            proof {
                let top = (*root_node)->0;
                Self::lemma_unfold(*root_node);
                Self::lemma_unfold(top.left);
                Self::lemma_unfold(top.right);
                if inner {
                    Self::lemma_unfold(g.left->0.right->0.left);
                    Self::lemma_unfold(g.left->0.right->0.right);
                }
            }
        }
    }

    /// The repair of [`Self::insert_rebalance`] where the right subtree took the new key.
    fn rebalance_right(root_node: &mut RedBlackTree)
        requires
            Self::strained(*old(root_node), false),
        ensures
            Self::relieved(*old(root_node), *final(root_node)),
            *final(root_node) == Self::relieve_right(*old(root_node)),
    {
        let ghost g = (*old(root_node))->0;
        proof {
            Self::lemma_unfold(*root_node);
            Self::lemma_unfold(g.right);
            Self::lemma_unfold(g.left);
            if g.right is Some {
                Self::lemma_unfold(g.right->0.right);
                Self::lemma_unfold(g.right->0.left);
            }
        }
        let grandparent = root_node.as_ref().unwrap();
        if !(RBTree::get_color(&grandparent.right) == NodeColor::Red && RBTree::has_red_child(
            &grandparent.right,
        )) {
            return ;
        }
        let uncle_red = RBTree::get_color(&grandparent.left) == NodeColor::Red;
        let inner = RBTree::get_color(&grandparent.right.as_ref().unwrap().right) != NodeColor::Red;
        let grandparent = root_node.as_mut().unwrap();
        if uncle_red {
            RBTree::reset_color(&mut grandparent.left, NodeColor::Black);
            RBTree::reset_color(&mut grandparent.right, NodeColor::Black);
            RBTree::reset_color(root_node, NodeColor::Red);
            proof {
                Self::lemma_unfold(*root_node);
                Self::lemma_unfold((*root_node)->0.right);
                Self::lemma_unfold((*root_node)->0.left);
            }
        } else {
            if inner {
                RBTree::right_rotation(&mut grandparent.right);
            }
            RBTree::reset_color(&mut grandparent.right, NodeColor::Black);
            assert(Self::ordered(*root_node) && Self::keys_of(*root_node) == Self::keys_of(
                *old(root_node),
            )) by {
                Self::lemma_unfold(*root_node);
            }
            RBTree::reset_color(root_node, NodeColor::Red);
            RBTree::left_rotation(root_node);
            proof {
                let top = (*root_node)->0;
                Self::lemma_unfold(*root_node);
                Self::lemma_unfold(top.right);
                Self::lemma_unfold(top.left);
                if inner {
                    Self::lemma_unfold(g.right->0.left->0.right);
                    Self::lemma_unfold(g.right->0.left->0.left);
                }
            }
        }
    }

    /// Resolves a red node with a red child below the black node at the root
    /// of the subtree. With a red uncle the two reds above are painted black
    /// and the root red, which may pass the conflict upward. With a black
    /// uncle an inner grandchild is first rotated outward; then the parent is
    /// painted black, the root red, and the root rotated toward the uncle.
    fn insert_rebalance(root_node: &mut RedBlackTree, left_side: bool)
        requires
            Self::strained(*old(root_node), left_side),
        ensures
            Self::relieved(*old(root_node), *final(root_node)),
            *final(root_node) == (if left_side {
                Self::relieve_left(*old(root_node))
            } else {
                Self::relieve_right(*old(root_node))
            }),
    {
        if left_side {
            Self::rebalance_left(root_node);
        } else {
            Self::rebalance_right(root_node);
        }
    }

    /// Plain search-tree insertion of a red node, with the repair of each
    /// black ancestor's subtree on the way back up. Returns whether the key
    /// was new.
    fn inserted(pre_node: &mut RedBlackTree, val: u32) -> (added: bool)
        requires
            Self::rb(*old(pre_node)),
        ensures
            added == !Self::keys_of(*old(pre_node)).contains(val),
            !added ==> *final(pre_node) == *old(pre_node),
            Self::keys_of(*final(pre_node)) == Self::keys_of(*old(pre_node)).insert(val),
            Self::ordered(*final(pre_node)),
            Self::even_black(*final(pre_node)),
            Self::black_height(*final(pre_node)) == Self::black_height(*old(pre_node)),
            Self::almost(*final(pre_node)),
            !Self::is_red(*old(pre_node)) ==> Self::no_red_red(*final(pre_node)),
            *final(pre_node) == Self::grown(*old(pre_node), val),
        decreases *old(pre_node),
    {
        proof {
            Self::lemma_unfold(*old(pre_node));
        }
        if pre_node.is_none() {
            *pre_node = Some(Box::new(TreeNode::new(val)));
            proof {
                Self::lemma_unfold(*pre_node);
                Self::lemma_unfold(None);
                assert(Self::keys_of(*pre_node) =~= Self::keys_of(*old(pre_node)).insert(val));
            }
            return true;
        }
        let ghost before = (*old(pre_node))->0;
        let node = pre_node.as_ref().unwrap();
        let (key, color) = (node.key, node.color);
        if key == val {
            assert(Self::keys_of(*pre_node) =~= Self::keys_of(*pre_node).insert(val));
            false
        } else if key > val {
            let added = Self::inserted(&mut pre_node.as_mut().unwrap().left, val);
            proof {
                Self::lemma_unfold(*pre_node);
                assert(!Self::keys_of(before.right).contains(val));
                assert(Self::keys_of(*pre_node) =~= Self::keys_of(*old(pre_node)).insert(val));
                assert(Self::ordered(*pre_node));
            }
            if added && color == NodeColor::Black {
                Self::insert_rebalance(pre_node, true);
                proof {
                    Self::lemma_unfold(*pre_node);
                }
            }
            added
        } else {
            let added = Self::inserted(&mut pre_node.as_mut().unwrap().right, val);
            proof {
                Self::lemma_unfold(*pre_node);
                assert(!Self::keys_of(before.left).contains(val));
                assert(Self::keys_of(*pre_node) =~= Self::keys_of(*old(pre_node)).insert(val));
                assert(Self::ordered(*pre_node));
            }
            if added && color == NodeColor::Black {
                Self::insert_rebalance(pre_node, false);
                proof {
                    Self::lemma_unfold(*pre_node);
                }
            }
            added
        }
    }

    /// What `adjust_double_black` finds: below the root of `t`, the subtree on
    /// the given side is sound, black at its root, and one black node short of
    /// its sibling, which is sound as well.
    spec fn short_on(t: RedBlackTree, left_side: bool) -> bool {
        &&& t matches Some(p) && ({
            let low = if left_side {
                p.left
            } else {
                p.right
            };
            let sib = if left_side {
                p.right
            } else {
                p.left
            };
            &&& Self::even_black(low) && Self::no_red_red(low) && !Self::is_red(low)
            &&& Self::even_black(sib) && Self::no_red_red(sib)
            &&& Self::black_height(low) + 1 == Self::black_height(sib)
            &&& p.color == NodeColor::Red ==> !Self::is_red(sib)
        })
        &&& Self::ordered(t)
    }

    /// The black height that `t` had before one side of it came up short.
    spec fn owed(t: RedBlackTree, left_side: bool) -> nat {
        match t {
            None => 0,
            Some(p) => Self::black_height(
                if left_side {
                    p.right
                } else {
                    p.left
                },
            ) + if p.color == NodeColor::Black {
                1nat
            } else {
                0nat
            },
        }
    }

    /// The sibling of the short side is red.
    spec fn sibling_red(t: RedBlackTree, left_side: bool) -> bool {
        t matches Some(p) && Self::is_red(
            if left_side {
                p.right
            } else {
                p.left
            },
        )
    }

    /// What a repair leaves: a sound subtree with the same keys whose black
    /// height is the one owed, or one less where `deficit` passes the
    /// shortage upward; a black root stays black, and only a subtree that
    /// had a black root passes a shortage on.
    spec fn mended(before: RedBlackTree, owed: nat, after: RedBlackTree, deficit: bool) -> bool {
        &&& Self::keys_of(after) == Self::keys_of(before)
        &&& Self::rb(after)
        &&& Self::black_height(after) + (if deficit {
            1nat
        } else {
            0nat
        }) == owed
        &&& !Self::is_red(before) ==> !Self::is_red(after)
        &&& deficit ==> !Self::is_red(before)
    }

    /// What a deletion leaves: a sound subtree without the key, whose black
    /// height is the old one, or one less where `deficit` passes the shortage
    /// upward.
    spec fn pruned(before: RedBlackTree, val: u32, after: RedBlackTree, deficit: bool) -> bool {
        &&& Self::keys_of(after) == Self::keys_of(before).remove(val)
        &&& Self::rb(after)
        &&& Self::black_height(after) + (if deficit {
            1nat
        } else {
            0nat
        }) == Self::black_height(before)
        &&& !Self::is_red(before) ==> !Self::is_red(after)
        &&& deficit ==> !Self::is_red(before)
    }

    /// The in-order sequence of an ordered tree is strictly increasing.
    proof fn lemma_in_order(t: RedBlackTree)
        requires
            Self::ordered(t),
        ensures
            strictly_increasing(Self::in_order(t)),
        decreases t,
    {
        Self::lemma_traversals(t);
        match t {
            None => {},
            Some(n) => {
                Self::lemma_in_order(n.left);
                Self::lemma_in_order(n.right);
                Self::lemma_traversals(n.left);
                Self::lemma_traversals(n.right);
                let a = Self::in_order(n.left);
                let b = Self::in_order(n.right);
                let s = Self::in_order(t);
                assert(s == a.push(n.key) + b);
                assert forall|i: int, j: int| 0 <= i < j < s.len() implies s[i] < s[j] by {
                    if i < a.len() {
                        assert(a.to_set().contains(a[i]));
                        assert(Self::keys_of(n.left).contains(s[i]));
                    }
                    if j > a.len() {
                        assert(b.to_set().contains(b[j - a.len() - 1]));
                        assert(Self::keys_of(n.right).contains(s[j]));
                    }
                }
            },
        }
    }

    /// Each traversal visits every node once, so it lists exactly the keys.
    proof fn lemma_traversals(t: RedBlackTree)
        ensures
            Self::in_order(t).to_set() == Self::keys_of(t),
            Self::pre_order(t).to_set() == Self::keys_of(t),
            Self::post_order(t).to_set() == Self::keys_of(t),
            Self::in_order(t).len() == Self::size_of(t),
            Self::pre_order(t).len() == Self::size_of(t),
            Self::post_order(t).len() == Self::size_of(t),
        decreases t,
    {
        match t {
            None => {
                assert(Self::in_order(t).to_set() =~= Self::keys_of(t));
                assert(Self::pre_order(t).to_set() =~= Self::keys_of(t));
                assert(Self::post_order(t).to_set() =~= Self::keys_of(t));
            },
            Some(n) => {
                Self::lemma_traversals(n.left);
                Self::lemma_traversals(n.right);
                assert forall|k: u32|
                    Self::in_order(t).to_set().contains(k) == Self::keys_of(t).contains(k) by {
                    lemma_push_has(Self::in_order(n.left), n.key, k);
                    lemma_concat_has(Self::in_order(n.left).push(n.key), Self::in_order(n.right), k);
                    assert(Self::in_order(n.left).to_set().contains(k) == Self::in_order(
                        n.left,
                    ).contains(k));
                    assert(Self::in_order(n.right).to_set().contains(k) == Self::in_order(
                        n.right,
                    ).contains(k));
                }
                assert forall|k: u32|
                    Self::pre_order(t).to_set().contains(k) == Self::keys_of(t).contains(k) by {
                    lemma_push_has(Seq::<u32>::empty(), n.key, k);
                    assert(seq![n.key] =~= Seq::<u32>::empty().push(n.key));
                    lemma_concat_has(seq![n.key], Self::pre_order(n.left), k);
                    lemma_concat_has(seq![n.key] + Self::pre_order(n.left), Self::pre_order(n.right), k);
                    assert(Self::pre_order(n.left).to_set().contains(k) == Self::pre_order(
                        n.left,
                    ).contains(k));
                    assert(Self::pre_order(n.right).to_set().contains(k) == Self::pre_order(
                        n.right,
                    ).contains(k));
                }
                assert forall|k: u32|
                    Self::post_order(t).to_set().contains(k) == Self::keys_of(t).contains(k) by {
                    lemma_concat_has(Self::post_order(n.left), Self::post_order(n.right), k);
                    lemma_push_has(Self::post_order(n.left) + Self::post_order(n.right), n.key, k);
                    assert(Self::post_order(n.left).to_set().contains(k) == Self::post_order(
                        n.left,
                    ).contains(k));
                    assert(Self::post_order(n.right).to_set().contains(k) == Self::post_order(
                        n.right,
                    ).contains(k));
                }
                assert(Self::in_order(t).to_set() =~= Self::keys_of(t));
                assert(Self::pre_order(t).to_set() =~= Self::keys_of(t));
                assert(Self::post_order(t).to_set() =~= Self::keys_of(t));
            },
        }
    }

    /// A sound subtree of black height `b` has at least `2^b - 1` nodes and is
    /// at most `2b` levels tall, one more if its root is red.
    proof fn lemma_black_height(t: RedBlackTree)
        requires
            Self::even_black(t),
            Self::no_red_red(t),
        ensures
            pow2(Self::black_height(t)) <= Self::size_of(t) + 1,
            Self::height_of(t) <= 2 * Self::black_height(t) + if Self::is_red(t) {
                1nat
            } else {
                0nat
            },
        decreases t,
    {
        lemma2_to64();
        match t {
            None => {},
            Some(n) => {
                Self::lemma_black_height(n.left);
                Self::lemma_black_height(n.right);
                if n.color == NodeColor::Black {
                    lemma_pow2_unfold(Self::black_height(t));
                }
            },
        }
    }

    /// A tree of `h` levels has at most `2^h - 1` nodes.
    proof fn lemma_size_below_height(t: RedBlackTree)
        ensures
            Self::size_of(t) + 1 <= pow2(Self::height_of(t)),
        decreases t,
    {
        lemma2_to64();
        match t {
            None => {},
            Some(n) => {
                Self::lemma_size_below_height(n.left);
                Self::lemma_size_below_height(n.right);
                let h = Self::height_of(t);
                let hl = Self::height_of(n.left);
                let hr = Self::height_of(n.right);
                lemma_pow2_unfold(h);
                if hl < h - 1 {
                    lemma_pow2_strictly_increases(hl, (h - 1) as nat);
                }
                if hr < h - 1 {
                    lemma_pow2_strictly_increases(hr, (h - 1) as nat);
                }
            },
        }
    }

    /// Twice the number of leaves is at most one more than the number of nodes.
    proof fn lemma_leaves(t: RedBlackTree)
        ensures
            2 * Self::leaves_of(t) <= Self::size_of(t) + 1,
        decreases t,
    {
        match t {
            None => {},
            Some(n) => {
                Self::lemma_leaves(n.left);
                Self::lemma_leaves(n.right);
            },
        }
    }

    /// A sound tree over 32-bit keys has at most 2^32 nodes, black height at
    /// most 32 and at most 65 levels.
    proof fn lemma_bounds(t: RedBlackTree)
        requires
            Self::rb(t),
        ensures
            Self::size_of(t) <= 0x1_0000_0000,
            Self::black_height(t) <= 32,
            Self::height_of(t) <= 65,
            Self::leaves_of(t) <= 0x8000_0000,
    {
        Self::lemma_in_order(t);
        Self::lemma_traversals(t);
        lemma_increasing_len(Self::in_order(t));
        Self::lemma_black_height(t);
        Self::lemma_leaves(t);
        lemma2_to64();
        let b = Self::black_height(t);
        if b >= 33 {
            lemma2_to64_rest();
            if b > 33 {
                lemma_pow2_strictly_increases(33, b);
            }
            assert(pow2(33) == 0x2_0000_0000);
        }
    }

    /// A fresh red node without children.
    fn new(val: u32) -> (fresh: Self)
        ensures
            fresh == (TreeNode { color: NodeColor::Red, key: val, left: None, right: None }),
    {
        TreeNode { color: NodeColor::Red, key: val, left: None, right: None }
    }
}

impl View for RBTree {
    type V = Set<u32>;

    /// The set of keys held by the tree.
    closed spec fn view(&self) -> Set<u32> {
        TreeNode::keys_of(self.root)
    }
}

impl RBTree {
    /// The invariants of the tree: search-tree ordering, a black root, no red
    /// node with a red child, and the same number of black nodes on every
    /// path from the root to an absent child.
    pub open spec fn wf(&self) -> bool {
        &&& self.is_ordered()
        &&& self.root_color() == NodeColor::Black
        &&& self.reds_have_black_children()
        &&& self.black_count_uniform()
    }

    /// At every node, the keys to the left are smaller than the node's key
    /// and the keys to the right are larger.
    pub closed spec fn is_ordered(&self) -> bool {
        TreeNode::ordered(self.root)
    }

    /// The color of the root; black for the empty tree.
    pub closed spec fn root_color(&self) -> NodeColor {
        TreeNode::color_of(self.root)
    }

    /// No red node has a red child.
    pub closed spec fn reds_have_black_children(&self) -> bool {
        TreeNode::no_red_red(self.root)
    }

    /// Every path from a node down to an absent child passes the same number
    /// of black nodes.
    pub closed spec fn black_count_uniform(&self) -> bool {
        TreeNode::even_black(self.root)
    }

    /// The number of nodes on the longest path from the root down.
    pub closed spec fn height(&self) -> nat {
        TreeNode::height_of(self.root)
    }

    /// The number of black nodes on any path from the root to an absent child.
    pub closed spec fn black_height(&self) -> nat {
        TreeNode::black_height(self.root)
    }

    /// The number of nodes without children.
    pub closed spec fn leaf_count(&self) -> nat {
        TreeNode::leaves_of(self.root)
    }

    /// The keys, left subtree first, then the node, then the right subtree.
    pub closed spec fn in_order(&self) -> Seq<u32> {
        TreeNode::in_order(self.root)
    }

    /// The keys, node first, then the left subtree, then the right subtree.
    pub closed spec fn pre_order(&self) -> Seq<u32> {
        TreeNode::pre_order(self.root)
    }

    /// The keys, left subtree first, then the right subtree, then the node.
    pub closed spec fn post_order(&self) -> Seq<u32> {
        TreeNode::post_order(self.root)
    }

    /// The tree without any key.
    pub closed spec fn empty() -> RBTree {
        RBTree { root: None }
    }

    /// The tree that inserting `val` gives. The key becomes a red node where
    /// the search for it ends. Going back up from there, a black node whose
    /// child and grandchild on that side are both red is repaired: with a red
    /// uncle, parent and uncle turn black and the node itself red; with a
    /// black uncle, an inner grandchild is first rotated outward, then the
    /// parent turns black, the node red, and the node is rotated toward the
    /// uncle. At the end the root is painted black. A key that the tree holds
    /// leaves it as it is.
    pub closed spec fn with_key(&self, val: u32) -> RBTree {
        RBTree { root: TreeNode::repaint(TreeNode::grown(self.root, val), NodeColor::Black) }
    }

    /// The tree that deleting `val` leaves; the tree itself where it does not
    /// hold `val`. A node with two children takes the key of its in-order
    /// predecessor, and the predecessor's node is removed instead. A node
    /// with at most one child is unlinked; its child, if any, takes its place
    /// and turns black. Where a black node without a red child was unlinked,
    /// its place is one black node short, and every node on the way back up
    /// repairs that against the sibling: a black sibling with a red child
    /// gives it up through one or two rotations, its left child if that is
    /// red, else its right child; a black sibling with two
    /// black children turns red, and a red parent turns black, while a black
    /// parent passes the shortage upward; a red sibling is first rotated
    /// above the parent.
    pub closed spec fn without_key(&self, val: u32) -> RBTree {
        if TreeNode::keys_of(self.root).contains(val) {
            RBTree { root: TreeNode::shrunk(self.root, val).0 }
        } else {
            *self
        }
    }

    /// The empty tree.
    pub fn new() -> (tree: Self)
        ensures
            tree == Self::empty(),
            tree.wf(),
            tree@ == Set::<u32>::empty(),
    {
        proof {
            TreeNode::lemma_unfold(None);
        }
        RBTree { root: None }
    }

    /// Adds `val` and says whether it was new. A key that is already present
    /// leaves the tree untouched.
    pub fn insert_node(&mut self, val: u32) -> (added: bool)
        requires
            old(self).wf(),
        ensures
            final(self).wf(),
            final(self)@ == old(self)@.insert(val),
            added == !old(self)@.contains(val),
            !added ==> *final(self) == *old(self),
            *final(self) == old(self).with_key(val),
    {
        let added = TreeNode::inserted(&mut self.root, val);
        Self::reset_color(&mut self.root, NodeColor::Black);
        proof {
            TreeNode::lemma_unfold(self.root);
        }
        added
    }

    /// Whether the tree holds no key.
    pub fn is_empty(&self) -> (empty: bool)
        ensures
            empty == (self@ == Set::<u32>::empty()),
    {
        proof {
            TreeNode::lemma_unfold(self.root);
        }
        self.root.is_none()
    }

    /// The color of the root of a subtree; black for an absent one.
    fn get_color(node: &RedBlackTree) -> (c: NodeColor)
        ensures
            c == TreeNode::color_of(*node),
    {
        match node {
            Some(n) => n.color,
            None => NodeColor::Black,
        }
    }

    /// Whether a node has at least one red child.
    fn has_red_child(node: &RedBlackTree) -> (red: bool)
        ensures
            red == (*node matches Some(n) && (TreeNode::is_red(n.left) || TreeNode::is_red(
                n.right,
            ))),
    {
        match node {
            Some(n) => Self::get_color(&n.left) == NodeColor::Red || Self::get_color(&n.right)
                == NodeColor::Red,
            None => false,
        }
    }

    /// The key of a node.
    fn get_key(node: &Box<TreeNode<u32>>) -> (k: u32)
        ensures
            k == node.key,
    {
        node.key
    }

    /// Repaints the root of a subtree; an absent subtree stays as it is.
    fn reset_color(node: &mut RedBlackTree, new_color: NodeColor)
        ensures
            *old(node) is None ==> *final(node) is None,
            *old(node) matches Some(n) ==> *final(node) == TreeNode::node(
                new_color,
                n.left,
                n.key,
                n.right,
            ),
            TreeNode::keys_of(*final(node)) == TreeNode::keys_of(*old(node)),
            TreeNode::ordered(*final(node)) == TreeNode::ordered(*old(node)),
            TreeNode::even_black(*final(node)) == TreeNode::even_black(*old(node)),
            TreeNode::color_of(*old(node)) == new_color ==> *final(node) == *old(node),
    {
        proof {
            if *node is Some {
                TreeNode::lemma_repainted(*node, new_color);
            }
        }
        match node {
            Some(n) => {
                n.color = new_color;
            },
            None => {},
        }
    }

    /// The largest key of a subtree, found by walking down its right edge.
    fn find_right_child(node: &RedBlackTree) -> (k: u32)
        requires
            *node is Some,
            TreeNode::ordered(*node),
        ensures
            TreeNode::keys_of(*node).contains(k),
            forall|j: u32| #[trigger] TreeNode::keys_of(*node).contains(j) ==> j <= k,
            k == TreeNode::max_key(*node),
        decreases *node,
    {
        proof {
            TreeNode::lemma_unfold(*node);
        }
        let n = node.as_ref().unwrap();
        proof {
            TreeNode::lemma_unfold(n.right);
        }
        if n.right.is_some() {
            Self::find_right_child(&n.right)
        } else {
            n.key
        }
    }

    /// The key that takes the place of a node about to be removed: the
    /// in-order predecessor where the node has two children, the key of its
    /// only child where it has one, none for a leaf.
    fn find_replace_node(node: &RedBlackTree) -> (k: Option<u32>)
        requires
            *node is Some,
            TreeNode::ordered(*node),
        ensures
            *node matches Some(n) && (if n.left is Some && n.right is Some {
                k matches Some(m) && m == TreeNode::max_key(n.left) && TreeNode::keys_of(
                    n.left,
                ).contains(m) && forall|j: u32| #[trigger]
                    TreeNode::keys_of(n.left).contains(j) ==> j <= m
            } else if n.left is Some {
                k == Some(n.left->0.key)
            } else if n.right is Some {
                k == Some(n.right->0.key)
            } else {
                k is None
            }),
    {
        proof {
            TreeNode::lemma_unfold(*node);
        }
        let n = node.as_ref().unwrap();
        if n.left.is_some() && n.right.is_some() {
            Some(Self::find_right_child(&n.left))
        } else if let Some(c) = &n.left {
            Some(Self::get_key(c))
        } else if let Some(c) = &n.right {
            Some(Self::get_key(c))
        } else {
            None
        }
    }

    /// Lifts the right child of the root of the subtree to its place; the old
    /// root becomes the left child and adopts the lifted node's left subtree.
    fn left_rotation(node: &mut RedBlackTree)
        requires
            *old(node) matches Some(x) && x.right is Some,
        ensures
            *old(node) matches Some(x) && (x.right matches Some(y) && *final(node)
                == TreeNode::node(
                y.color,
                TreeNode::node(x.color, x.left, x.key, y.left),
                y.key,
                y.right,
            )),
            TreeNode::keys_of(*final(node)) == TreeNode::keys_of(*old(node)),
            TreeNode::ordered(*old(node)) ==> TreeNode::ordered(*final(node)),
    {
        proof {
            TreeNode::lemma_rotated_left(*node);
        }
        let mut top = node.take().unwrap();
        let mut lifted = top.right.take().unwrap();
        top.right = lifted.left.take();
        lifted.left = Some(top);
        *node = Some(lifted);
    }

    /// Lifts the left child of the root of the subtree to its place; the old
    /// root becomes the right child and adopts the lifted node's right subtree.
    fn right_rotation(node: &mut RedBlackTree)
        requires
            *old(node) matches Some(x) && x.left is Some,
        ensures
            *old(node) matches Some(x) && (x.left matches Some(y) && *final(node)
                == TreeNode::node(
                y.color,
                y.left,
                y.key,
                TreeNode::node(x.color, y.right, x.key, x.right),
            )),
            TreeNode::keys_of(*final(node)) == TreeNode::keys_of(*old(node)),
            TreeNode::ordered(*old(node)) ==> TreeNode::ordered(*final(node)),
    {
        proof {
            TreeNode::lemma_rotated_right(*node);
        }
        let mut top = node.take().unwrap();
        let mut lifted = top.left.take().unwrap();
        top.left = lifted.right.take();
        lifted.right = Some(top);
        *node = Some(lifted);
    }
}

impl RBTree {
    /// The left side is short and the black sibling's left child is red: that
    /// child takes the parent's color and is lifted to the root by a double
    /// rotation, and the parent, now its left child, turns black.
    fn lend_near_left(node: &mut RedBlackTree) -> (deficit: bool)
        requires
            TreeNode::short_on(*old(node), true),
            *old(node) matches Some(p) && (p.right matches Some(s) && s.color == NodeColor::Black
                && TreeNode::is_red(s.left)),
        ensures
            TreeNode::mended(*old(node), TreeNode::owed(*old(node), true), *final(node), deficit),
            (*final(node), deficit) == TreeNode::mend_left(*old(node)),
    {
        let ghost p = (*old(node))->0;
        proof {
            TreeNode::lemma_unfold(*node);
            TreeNode::lemma_unfold(p.left);
            TreeNode::lemma_unfold(p.right);
            if p.right is Some {
                TreeNode::lemma_unfold(p.right->0.left);
                TreeNode::lemma_unfold(p.right->0.right);
            }
        }
        let parent = node.as_mut().unwrap();
        let p_color = parent.color;
        let sibling = parent.right.as_mut().unwrap();
        Self::reset_color(&mut sibling.left, p_color);
        proof {
            TreeNode::lemma_unfold(parent.right);
        }
        Self::right_rotation(&mut parent.right);
        proof {
            TreeNode::lemma_unfold(*node);
        }
        Self::left_rotation(node);
        Self::reset_color(&mut node.as_mut().unwrap().left, NodeColor::Black);
        proof {
            let top = (*node)->0;
            TreeNode::lemma_unfold(*node);
            TreeNode::lemma_unfold(top.left);
            TreeNode::lemma_unfold(top.right);
            TreeNode::lemma_unfold(p.right->0.left->0.left);
            TreeNode::lemma_unfold(p.right->0.left->0.right);
        }
        false
    }

    /// The left side is short and of the black sibling's children only the
    /// right one is red: that child takes the sibling's color, the sibling
    /// takes the parent's color and is lifted to the root by a single
    /// rotation, and the parent, now its left child, turns black.
    fn lend_far_left(node: &mut RedBlackTree) -> (deficit: bool)
        requires
            TreeNode::short_on(*old(node), true),
            *old(node) matches Some(p) && (p.right matches Some(s) && s.color == NodeColor::Black
                && !TreeNode::is_red(s.left) && TreeNode::is_red(s.right)),
        ensures
            TreeNode::mended(*old(node), TreeNode::owed(*old(node), true), *final(node), deficit),
            (*final(node), deficit) == TreeNode::mend_left(*old(node)),
    {
        let ghost p = (*old(node))->0;
        proof {
            TreeNode::lemma_unfold(*node);
            TreeNode::lemma_unfold(p.left);
            TreeNode::lemma_unfold(p.right);
            if p.right is Some {
                TreeNode::lemma_unfold(p.right->0.left);
                TreeNode::lemma_unfold(p.right->0.right);
            }
        }
        let parent = node.as_mut().unwrap();
        let p_color = parent.color;
        let sibling = parent.right.as_mut().unwrap();
        let s_color = sibling.color;
        Self::reset_color(&mut sibling.right, s_color);
        Self::reset_color(&mut parent.right, p_color);
        proof {
            TreeNode::lemma_unfold(*node);
            TreeNode::lemma_unfold((*node)->0.right);
        }
        Self::left_rotation(node);
        Self::reset_color(&mut node.as_mut().unwrap().left, NodeColor::Black);
        proof {
            let top = (*node)->0;
            TreeNode::lemma_unfold(*node);
            TreeNode::lemma_unfold(top.left);
            TreeNode::lemma_unfold(top.right);
        }
        false
    }

    /// The left side is short and the black sibling has no red child: the
    /// sibling turns red, which makes both sides equal again. A red parent
    /// turns black and makes up for the missing black node; a black parent
    /// passes the shortage upward.
    fn level_left(node: &mut RedBlackTree) -> (deficit: bool)
        requires
            TreeNode::short_on(*old(node), true),
            *old(node) matches Some(p) && (p.right matches Some(s) && s.color == NodeColor::Black
                && !TreeNode::is_red(s.left) && !TreeNode::is_red(s.right)),
        ensures
            TreeNode::mended(*old(node), TreeNode::owed(*old(node), true), *final(node), deficit),
            (*final(node), deficit) == TreeNode::mend_left(*old(node)),
    {
        let ghost p = (*old(node))->0;
        proof {
            TreeNode::lemma_unfold(*node);
            TreeNode::lemma_unfold(p.left);
            TreeNode::lemma_unfold(p.right);
            if p.right is Some {
                TreeNode::lemma_unfold(p.right->0.left);
                TreeNode::lemma_unfold(p.right->0.right);
            }
        }
        let parent = node.as_mut().unwrap();
        let p_color = parent.color;
        Self::reset_color(&mut parent.right, NodeColor::Red);
        proof {
            TreeNode::lemma_unfold(*node);
            TreeNode::lemma_unfold((*node)->0.right);
        }
        if p_color == NodeColor::Black {
            true
        } else {
            Self::reset_color(node, NodeColor::Black);
            proof {
                TreeNode::lemma_unfold(*node);
            }
            false
        }
    }

    /// The repair of [`Self::adjust_double_black`] where the left side is short.
    fn adjust_left(node: &mut RedBlackTree) -> (deficit: bool)
        requires
            TreeNode::short_on(*old(node), true),
        ensures
            TreeNode::mended(*old(node), TreeNode::owed(*old(node), true), *final(node), deficit),
            (*final(node), deficit) == TreeNode::mend_left(*old(node)),
        decreases
                (if TreeNode::sibling_red(*old(node), true) {
                    1nat
                } else {
                    0nat
                }),
    {
        let ghost p = (*old(node))->0;
        proof {
            TreeNode::lemma_unfold(*node);
            TreeNode::lemma_unfold(p.left);
            TreeNode::lemma_unfold(p.right);
            if p.right is Some {
                TreeNode::lemma_unfold(p.right->0.left);
                TreeNode::lemma_unfold(p.right->0.right);
            }
        }
        let parent = node.as_ref().unwrap();
        let sibling = parent.right.as_ref().unwrap();
        if sibling.color == NodeColor::Black {
            if Self::get_color(&sibling.left) == NodeColor::Red {
                Self::lend_near_left(node)
            } else if Self::get_color(&sibling.right) == NodeColor::Red {
                Self::lend_far_left(node)
            } else {
                Self::level_left(node)
            }
        } else {
            let parent = node.as_mut().unwrap();
            Self::reset_color(&mut parent.right, NodeColor::Black);
            Self::reset_color(node, NodeColor::Red);
            proof {
                TreeNode::lemma_unfold(*node);
                TreeNode::lemma_unfold((*node)->0.right);
            }
            Self::left_rotation(node);
            let ghost turned = *node;
            proof {
                TreeNode::lemma_unfold(turned);
                TreeNode::lemma_unfold(turned->0.left);
                TreeNode::lemma_unfold(turned->0.left->0.right);
            }
            let deeper = Self::adjust_left(&mut node.as_mut().unwrap().left);
            proof {
                TreeNode::lemma_unfold(*node);
                assert(TreeNode::keys_of(*node) =~= TreeNode::keys_of(turned));
                assert(TreeNode::ordered(*node));
            }
            deeper
        }
    }

    /// The right side is short and of the black sibling's children only the
    /// right one is red: that child takes the parent's color and is lifted to
    /// the root by a double rotation, and the parent, now its right child,
    /// turns black.
    fn lend_near_right(node: &mut RedBlackTree) -> (deficit: bool)
        requires
            TreeNode::short_on(*old(node), false),
            *old(node) matches Some(p) && (p.left matches Some(s) && s.color == NodeColor::Black
                && !TreeNode::is_red(s.left) && TreeNode::is_red(s.right)),
        ensures
            TreeNode::mended(*old(node), TreeNode::owed(*old(node), false), *final(node), deficit),
            (*final(node), deficit) == TreeNode::mend_right(*old(node)),
    {
        let ghost p = (*old(node))->0;
        proof {
            TreeNode::lemma_unfold(*node);
            TreeNode::lemma_unfold(p.right);
            TreeNode::lemma_unfold(p.left);
            if p.left is Some {
                TreeNode::lemma_unfold(p.left->0.right);
                TreeNode::lemma_unfold(p.left->0.left);
            }
        }
        let parent = node.as_mut().unwrap();
        let p_color = parent.color;
        let sibling = parent.left.as_mut().unwrap();
        Self::reset_color(&mut sibling.right, p_color);
        proof {
            TreeNode::lemma_unfold(parent.left);
        }
        Self::left_rotation(&mut parent.left);
        proof {
            TreeNode::lemma_unfold(*node);
        }
        Self::right_rotation(node);
        Self::reset_color(&mut node.as_mut().unwrap().right, NodeColor::Black);
        proof {
            let top = (*node)->0;
            TreeNode::lemma_unfold(*node);
            TreeNode::lemma_unfold(top.right);
            TreeNode::lemma_unfold(top.left);
            TreeNode::lemma_unfold(p.left->0.right->0.right);
            TreeNode::lemma_unfold(p.left->0.right->0.left);
        }
        false
    }

    /// The right side is short and the black sibling's left child is red: that
    /// child takes the sibling's color, the sibling takes the parent's color
    /// and is lifted to the root by a single rotation, and the parent, now its
    /// right child, turns black.
    fn lend_far_right(node: &mut RedBlackTree) -> (deficit: bool)
        requires
            TreeNode::short_on(*old(node), false),
            *old(node) matches Some(p) && (p.left matches Some(s) && s.color == NodeColor::Black
                && TreeNode::is_red(s.left)),
        ensures
            TreeNode::mended(*old(node), TreeNode::owed(*old(node), false), *final(node), deficit),
            (*final(node), deficit) == TreeNode::mend_right(*old(node)),
    {
        let ghost p = (*old(node))->0;
        proof {
            TreeNode::lemma_unfold(*node);
            TreeNode::lemma_unfold(p.right);
            TreeNode::lemma_unfold(p.left);
            if p.left is Some {
                TreeNode::lemma_unfold(p.left->0.right);
                TreeNode::lemma_unfold(p.left->0.left);
            }
        }
        let parent = node.as_mut().unwrap();
        let p_color = parent.color;
        let sibling = parent.left.as_mut().unwrap();
        let s_color = sibling.color;
        Self::reset_color(&mut sibling.left, s_color);
        Self::reset_color(&mut parent.left, p_color);
        proof {
            TreeNode::lemma_unfold(*node);
            TreeNode::lemma_unfold((*node)->0.left);
        }
        Self::right_rotation(node);
        Self::reset_color(&mut node.as_mut().unwrap().right, NodeColor::Black);
        proof {
            let top = (*node)->0;
            TreeNode::lemma_unfold(*node);
            TreeNode::lemma_unfold(top.right);
            TreeNode::lemma_unfold(top.left);
        }
        false
    }

    /// The right side is short and the black sibling has no red child: the
    /// sibling turns red, which makes both sides equal again. A red parent
    /// turns black and makes up for the missing black node; a black parent
    /// passes the shortage upward.
    fn level_right(node: &mut RedBlackTree) -> (deficit: bool)
        requires
            TreeNode::short_on(*old(node), false),
            *old(node) matches Some(p) && (p.left matches Some(s) && s.color == NodeColor::Black
                && !TreeNode::is_red(s.right) && !TreeNode::is_red(s.left)),
        ensures
            TreeNode::mended(*old(node), TreeNode::owed(*old(node), false), *final(node), deficit),
            (*final(node), deficit) == TreeNode::mend_right(*old(node)),
    {
        let ghost p = (*old(node))->0;
        proof {
            TreeNode::lemma_unfold(*node);
            TreeNode::lemma_unfold(p.right);
            TreeNode::lemma_unfold(p.left);
            if p.left is Some {
                TreeNode::lemma_unfold(p.left->0.right);
                TreeNode::lemma_unfold(p.left->0.left);
            }
        }
        let parent = node.as_mut().unwrap();
        let p_color = parent.color;
        Self::reset_color(&mut parent.left, NodeColor::Red);
        proof {
            TreeNode::lemma_unfold(*node);
            TreeNode::lemma_unfold((*node)->0.left);
        }
        if p_color == NodeColor::Black {
            true
        } else {
            Self::reset_color(node, NodeColor::Black);
            proof {
                TreeNode::lemma_unfold(*node);
            }
            false
        }
    }

    /// The repair of [`Self::adjust_double_black`] where the right side is short.
    fn adjust_right(node: &mut RedBlackTree) -> (deficit: bool)
        requires
            TreeNode::short_on(*old(node), false),
        ensures
            TreeNode::mended(*old(node), TreeNode::owed(*old(node), false), *final(node), deficit),
            (*final(node), deficit) == TreeNode::mend_right(*old(node)),
        decreases
                (if TreeNode::sibling_red(*old(node), false) {
                    1nat
                } else {
                    0nat
                }),
    {
        let ghost p = (*old(node))->0;
        proof {
            TreeNode::lemma_unfold(*node);
            TreeNode::lemma_unfold(p.right);
            TreeNode::lemma_unfold(p.left);
            if p.left is Some {
                TreeNode::lemma_unfold(p.left->0.right);
                TreeNode::lemma_unfold(p.left->0.left);
            }
        }
        let parent = node.as_ref().unwrap();
        let sibling = parent.left.as_ref().unwrap();
        if sibling.color == NodeColor::Black {
            if Self::get_color(&sibling.left) == NodeColor::Red {
                Self::lend_far_right(node)
            } else if Self::get_color(&sibling.right) == NodeColor::Red {
                Self::lend_near_right(node)
            } else {
                Self::level_right(node)
            }
        } else {
            let parent = node.as_mut().unwrap();
            Self::reset_color(&mut parent.left, NodeColor::Black);
            Self::reset_color(node, NodeColor::Red);
            proof {
                TreeNode::lemma_unfold(*node);
                TreeNode::lemma_unfold((*node)->0.left);
            }
            Self::right_rotation(node);
            let ghost turned = *node;
            proof {
                TreeNode::lemma_unfold(turned);
                TreeNode::lemma_unfold(turned->0.right);
                TreeNode::lemma_unfold(turned->0.right->0.left);
            }
            let deeper = Self::adjust_right(&mut node.as_mut().unwrap().right);
            proof {
                TreeNode::lemma_unfold(*node);
                assert(TreeNode::keys_of(*node) =~= TreeNode::keys_of(turned));
                assert(TreeNode::ordered(*node));
            }
            deeper
        }
    }

    /// Repairs a subtree one of whose sides has come up one black node short.
    /// A black sibling with a red child gives that child up through one or
    /// two rotations and the shortage is gone; on either side its left child
    /// is looked at first, its right child only if the left one is not red. A
    /// black sibling with two black
    /// children is painted red: a red parent then turns black and ends the
    /// repair, a black parent passes the shortage upward. A red sibling is
    /// rotated above the parent, after which the short side has a black
    /// sibling and is repaired one level further down.
    fn adjust_double_black(node: &mut RedBlackTree, left_side: bool) -> (deficit: bool)
        requires
            TreeNode::short_on(*old(node), left_side),
        ensures
            TreeNode::mended(*old(node), TreeNode::owed(*old(node), left_side), *final(node), deficit),
            (*final(node), deficit) == (if left_side {
                TreeNode::mend_left(*old(node))
            } else {
                TreeNode::mend_right(*old(node))
            }),
    {
        if left_side {
            Self::adjust_left(node)
        } else {
            Self::adjust_right(node)
        }
    }

    /// Unlinks a root that has at most one child; the child, if any, takes its
    /// place and is painted black unless both it and the removed node were black.
    fn splice_out(node: &mut RedBlackTree) -> (deficit: bool)
        requires
            TreeNode::rb(*old(node)),
            *old(node) matches Some(n) && (n.left is None || n.right is None),
        ensures
            *old(node) matches Some(n) && TreeNode::pruned(*old(node), n.key, *final(node), deficit),
            (*final(node), deficit) == TreeNode::spliced(*old(node)),
    {
        let ghost n = (*old(node))->0;
        proof {
            TreeNode::lemma_unfold(*node);
            TreeNode::lemma_unfold(n.left);
            TreeNode::lemma_unfold(n.right);
            if n.left is Some {
                TreeNode::lemma_unfold(n.left->0.left);
                TreeNode::lemma_unfold(n.left->0.right);
            }
            if n.right is Some {
                TreeNode::lemma_unfold(n.right->0.left);
                TreeNode::lemma_unfold(n.right->0.right);
            }
        }
        let mut gone = node.take().unwrap();
        let replace_node = if gone.left.is_some() {
            gone.left.take()
        } else {
            gone.right.take()
        };
        let replace_delete_black = Self::get_color(&replace_node) == NodeColor::Black
            && gone.color == NodeColor::Black;
        *node = replace_node;
        proof {
            assert(TreeNode::keys_of(*node) =~= TreeNode::keys_of(*old(node)).remove(n.key));
        }
        if node.is_none() {
            replace_delete_black
        } else {
            if !replace_delete_black {
                Self::reset_color(node, NodeColor::Black);
                proof {
                    TreeNode::lemma_unfold(*node);
                }
            }
            replace_delete_black
        }
    }

    /// Removes the key at a root that has two children: the root takes the
    /// key of its in-order predecessor, which is then removed from the left
    /// subtree in its place.
    fn replace_by_predecessor(node: &mut RedBlackTree) -> (deficit: bool)
        requires
            TreeNode::rb(*old(node)),
            *old(node) matches Some(n) && n.left is Some && n.right is Some,
        ensures
            *old(node) matches Some(n) && TreeNode::pruned(*old(node), n.key, *final(node), deficit)
                && (*final(node), deficit) == TreeNode::shrunk(*old(node), n.key),
        decreases *old(node), 0int,
    {
        let ghost n = (*old(node))->0;
        proof {
            TreeNode::lemma_unfold(*node);
            TreeNode::lemma_unfold(n.left);
            TreeNode::lemma_unfold(n.right);
        }
        let replace_key = Self::find_replace_node(node).unwrap();
        let found = node.as_mut().unwrap();
        found.key = replace_key;
        let short = Self::private_delete_node(&mut found.left, replace_key);
        proof {
            TreeNode::lemma_unfold(*node);
            assert(TreeNode::keys_of(*node) =~= TreeNode::keys_of(*old(node)).remove(n.key));
            assert(TreeNode::ordered(*node));
        }
        if short {
            Self::adjust_double_black(node, true)
        } else {
            false
        }
    }

    /// Removes `val`, which the subtree holds, and says whether the subtree
    /// has come up one black node short.
    fn private_delete_node(node: &mut RedBlackTree, val: u32) -> (deficit: bool)
        requires
            TreeNode::rb(*old(node)),
            TreeNode::keys_of(*old(node)).contains(val),
        ensures
            TreeNode::pruned(*old(node), val, *final(node), deficit),
            (*final(node), deficit) == TreeNode::shrunk(*old(node), val),
        decreases *old(node), 1int,
    {
        let ghost n = (*old(node))->0;
        proof {
            TreeNode::lemma_unfold(*node);
            TreeNode::lemma_unfold(n.left);
            TreeNode::lemma_unfold(n.right);
        }
        let found = node.as_ref().unwrap();
        let (key, two) = (found.key, found.left.is_some() && found.right.is_some());
        if val < key {
            assert(!TreeNode::keys_of(n.right).contains(val));
            let short = Self::private_delete_node(&mut node.as_mut().unwrap().left, val);
            proof {
                TreeNode::lemma_unfold(*node);
                assert(TreeNode::keys_of(*node) =~= TreeNode::keys_of(*old(node)).remove(val));
                assert(TreeNode::ordered(*node));
            }
            if short {
                Self::adjust_double_black(node, true)
            } else {
                false
            }
        } else if val > key {
            assert(!TreeNode::keys_of(n.left).contains(val));
            let short = Self::private_delete_node(&mut node.as_mut().unwrap().right, val);
            proof {
                TreeNode::lemma_unfold(*node);
                assert(TreeNode::keys_of(*node) =~= TreeNode::keys_of(*old(node)).remove(val));
                assert(TreeNode::ordered(*node));
            }
            if short {
                Self::adjust_double_black(node, false)
            } else {
                false
            }
        } else if two {
            Self::replace_by_predecessor(node)
        } else {
            Self::splice_out(node)
        }
    }
}

impl RBTree {
    /// Adds the number of leaves below `node_op` to `count`.
    fn private_get_number_leaves(node_op: &RedBlackTree, count: u32) -> (total: u32)
        requires
            *node_op is Some,
            count + TreeNode::leaves_of(*node_op) <= u32::MAX,
        ensures
            total == count + TreeNode::leaves_of(*node_op),
        decreases *node_op,
    {
        let mut count = count;
        let node = node_op.as_ref().unwrap();
        proof {
            TreeNode::lemma_unfold(node.left);
            TreeNode::lemma_unfold(node.right);
            assert(node.left is None ==> TreeNode::leaves_of(node.left) == 0);
            assert(node.right is None ==> TreeNode::leaves_of(node.right) == 0);
        }
        if node.left.is_some() {
            count = Self::private_get_number_leaves(&node.left, count);
        }
        if node.right.is_some() {
            count = Self::private_get_number_leaves(&node.right, count);
        }
        if node.left.is_none() && node.right.is_none() {
            count = count + 1;
        }
        count
    }

    /// The number of nodes without children.
    pub fn get_number_leaves(&self) -> (count: u32)
        requires
            self.wf(),
        ensures
            count == self.leaf_count(),
    {
        proof {
            TreeNode::lemma_bounds(self.root);
            TreeNode::lemma_unfold(self.root);
            assert(self.root is None ==> TreeNode::leaves_of(self.root) == 0);
        }
        let mut count: u32 = 0;
        if self.is_empty() {
            return count;
        } else {
            count = Self::private_get_number_leaves(&self.root, count);
        }
        count
    }

    /// The number of nodes on the longest path from the root of the subtree down.
    fn private_get_height(node_op: &RedBlackTree) -> (h: u32)
        requires
            TreeNode::height_of(*node_op) <= u32::MAX,
        ensures
            h == TreeNode::height_of(*node_op),
        decreases *node_op,
    {
        match node_op {
            None => 0u32,
            Some(node) => {
                let left_height: u32 = Self::private_get_height(&node.left);
                let right_height: u32 = Self::private_get_height(&node.right);
                if left_height > right_height {
                    return left_height + 1;
                }
                right_height + 1
            },
        }
    }

    /// The number of nodes on the longest path from the root down; zero for
    /// the empty tree.
    pub fn get_height(&self) -> (h: u32)
        requires
            self.wf(),
        ensures
            h == self.height(),
            h <= 2 * self.black_height(),
            h == 0 <==> self@ == Set::<u32>::empty(),
    {
        proof {
            TreeNode::lemma_bounds(self.root);
            TreeNode::lemma_black_height(self.root);
            TreeNode::lemma_unfold(self.root);
        }
        if self.is_empty() {
            return 0u32;
        }
        Self::private_get_height(&self.root)
    }

    /// Walks down from the root toward `val`; reports whether it was found,
    /// and the key of the node at which the walk ended: `val` itself where it
    /// was found, else the key next to `val` on one side, below which `val`
    /// would be inserted.
    fn private_search(&self, val: u32) -> (found: (bool, Option<u32>))
        requires
            self.is_ordered(),
        ensures
            found.0 == self@.contains(val),
            found.0 ==> found.1 == Some(val),
            found.1 is None <==> self@ == Set::<u32>::empty(),
            found.1 matches Some(k) ==> self@.contains(k) && forall|j: u32| #[trigger]
                self@.contains(j) ==> !(k < j < val) && !(val < j < k),
    {
        proof {
            TreeNode::lemma_unfold(self.root);
        }
        if self.root.is_none() {
            return (false, None);
        }
        let mut option_parent: Option<u32> = None;
        let mut option_children: &RedBlackTree = &self.root;
        let ghost mut lo: int = -1;
        let ghost mut hi: int = 0x1_0000_0000;
        while option_children.is_some()
            invariant
                TreeNode::ordered(*option_children),
                TreeNode::keys_of(self.root).contains(val) == TreeNode::keys_of(
                    *option_children,
                ).contains(val),
                option_parent matches Some(k) ==> TreeNode::keys_of(self.root).contains(k) && (k
                    == lo || k == hi),
                option_parent is None ==> *option_children is Some,
                lo < val < hi,
                forall|k: u32| #[trigger]
                    TreeNode::keys_of(*option_children).contains(k) ==> TreeNode::keys_of(
                        self.root,
                    ).contains(k) && lo < k < hi,
                forall|k: u32| #[trigger]
                    TreeNode::keys_of(self.root).contains(k) && !TreeNode::keys_of(
                        *option_children,
                    ).contains(k) ==> k <= lo || k >= hi,
            decreases *option_children,
        {
            let parent_node = option_children.as_ref().unwrap();
            proof {
                TreeNode::lemma_unfold(*option_children);
                TreeNode::lemma_unfold(parent_node.left);
                TreeNode::lemma_unfold(parent_node.right);
            }
            assert forall|k: u32| #[trigger]
                TreeNode::keys_of(parent_node.left).contains(k) implies TreeNode::keys_of(
                self.root,
            ).contains(k) && lo < k < parent_node.key by {
                assert(TreeNode::keys_of(*option_children).contains(k));
            }
            assert forall|k: u32| #[trigger]
                TreeNode::keys_of(parent_node.right).contains(k) implies TreeNode::keys_of(
                self.root,
            ).contains(k) && parent_node.key < k < hi by {
                assert(TreeNode::keys_of(*option_children).contains(k));
            }
            let parent_node_val = parent_node.key;
            option_parent = Some(parent_node_val);
            if parent_node_val < val {
                assert(!TreeNode::keys_of(parent_node.left).contains(val));
                assert forall|k: u32| #[trigger]
                    TreeNode::keys_of(self.root).contains(k) && !TreeNode::keys_of(
                        parent_node.right,
                    ).contains(k) implies k <= parent_node_val || k >= hi by {
                    if TreeNode::keys_of(*option_children).contains(k) {
                        assert(k == parent_node_val || TreeNode::keys_of(parent_node.left).contains(
                            k,
                        ));
                    }
                }
                proof {
                    lo = parent_node_val as int;
                }
                option_children = &parent_node.right;
            } else if parent_node_val > val {
                assert(!TreeNode::keys_of(parent_node.right).contains(val));
                assert forall|k: u32| #[trigger]
                    TreeNode::keys_of(self.root).contains(k) && !TreeNode::keys_of(
                        parent_node.left,
                    ).contains(k) implies k <= lo || k >= parent_node_val by {
                    if TreeNode::keys_of(*option_children).contains(k) {
                        assert(k == parent_node_val || TreeNode::keys_of(
                            parent_node.right,
                        ).contains(k));
                    }
                }
                proof {
                    hi = parent_node_val as int;
                }
                option_children = &parent_node.left;
            } else {
                return (true, option_parent);
            }
        }
        proof {
            TreeNode::lemma_unfold(*option_children);
        }
        (false, option_parent)
    }

    /// `Ok` where `val` is a key of the tree, a message where it is not. The
    /// tree is left as it was.
    pub fn search_node(&mut self, val: u32) -> (found: Result<(), String>)
        requires
            old(self).wf(),
        ensures
            *final(self) == *old(self),
            found is Ok <==> old(self)@.contains(val),
            found matches Err(msg) ==> msg@ == "The node with val is not found"@,
    {
        match self.private_search(val) {
            (false, _) => Err("The node with val is not found".to_owned()),
            (true, _) => Ok(()),
        }
    }

    /// Whether `val` is a key of the tree. The tree is left as it was.
    pub fn exist_or_not(&mut self, val: u32) -> (found: bool)
        requires
            old(self).wf(),
        ensures
            *final(self) == *old(self),
            found == old(self)@.contains(val),
    {
        self.private_search(val).0
    }

    /// Replaces the key `old_val` by `new_val`, or says why it did not.
    pub fn update_node(&mut self, old_val: u32, new_val: u32) -> (done: Result<(), UpdateError>)
        requires
            old(self).wf(),
        ensures
            final(self).wf(),
            done == update_verdict(old(self)@, old_val, new_val),
            done is Ok ==> final(self)@ == old(self)@.remove(old_val).insert(new_val) && *final(self)
                == old(self).without_key(old_val).with_key(new_val),
            done is Err ==> *final(self) == *old(self),
    {
        if self.is_empty() {
            Err(UpdateError::EmptyTree)
        } else if self.exist_or_not(old_val) == false {
            Err(UpdateError::Missing)
        } else if old_val == new_val {
            Err(UpdateError::Unchanged)
        } else if self.exist_or_not(new_val) {
            Err(UpdateError::Occupied)
        } else {
            let _ = self.delete(old_val);
            self.insert_node(new_val);
            Ok(())
        }
    }

    /// Removes `val`. A key that is absent leaves the tree untouched and
    /// yields a message: one for the empty tree, another for a missing key.
    pub fn delete(&mut self, val: u32) -> (done: Result<(), String>)
        requires
            old(self).wf(),
        ensures
            final(self).wf(),
            done is Ok <==> old(self)@.contains(val),
            done is Ok ==> final(self)@ == old(self)@.remove(val),
            *final(self) == old(self).without_key(val),
            done matches Err(msg) ==> *final(self) == *old(self) && msg@ == (if old(self)@
                == Set::<u32>::empty() {
                "Tree is none"@
            } else {
                "The node with val is not found"@
            }),
    {
        proof {
            TreeNode::lemma_unfold(self.root);
        }
        if self.root.is_none() {
            return Err("Tree is none".to_owned());
        }
        let (is_found, _) = self.private_search(val);
        if !is_found {
            return Err("The node with val is not found".to_owned());
        }
        Self::private_delete_node(&mut self.root, val);
        Ok(())
    }

    /// The keys in ascending order.
    fn vec_nodes_in_order(&self) -> (vec: Vec<u32>)
        ensures
            vec@ == self.in_order(),
    {
        let mut vec = Vec::new();
        self.nodes_in_order(&self.root, &mut vec);
        assert(vec@ =~= self.in_order());
        vec
    }

    /// Appends the keys below `node` in order: left subtree, node, right subtree.
    fn nodes_in_order(&self, node: &RedBlackTree, vec: &mut Vec<u32>)
        ensures
            final(vec)@ == old(vec)@ + TreeNode::in_order(*node),
        decreases *node,
    {
        match node {
            None => {
                assert(vec@ =~= old(vec)@ + TreeNode::in_order(*node));
            },
            Some(n) => {
                self.nodes_in_order(&n.left, vec);
                vec.push(n.key);
                self.nodes_in_order(&n.right, vec);
                assert(vec@ =~= old(vec)@ + TreeNode::in_order(*node));
            },
        }
    }

    /// Appends the keys below `node` in pre-order: node, left subtree, right subtree.
    fn nodes_pre_order(&self, node: &RedBlackTree, vec: &mut Vec<u32>)
        ensures
            final(vec)@ == old(vec)@ + TreeNode::pre_order(*node),
        decreases *node,
    {
        match node {
            None => {
                assert(vec@ =~= old(vec)@ + TreeNode::pre_order(*node));
            },
            Some(n) => {
                vec.push(n.key);
                self.nodes_pre_order(&n.left, vec);
                self.nodes_pre_order(&n.right, vec);
                assert(vec@ =~= old(vec)@ + TreeNode::pre_order(*node));
            },
        }
    }

    /// Appends the keys below `node` in post-order: left subtree, right subtree, node.
    fn nodes_post_order(&self, node: &RedBlackTree, vec: &mut Vec<u32>)
        ensures
            final(vec)@ == old(vec)@ + TreeNode::post_order(*node),
        decreases *node,
    {
        match node {
            None => {
                assert(vec@ =~= old(vec)@ + TreeNode::post_order(*node));
            },
            Some(n) => {
                self.nodes_post_order(&n.left, vec);
                self.nodes_post_order(&n.right, vec);
                vec.push(n.key);
                assert(vec@ =~= old(vec)@ + TreeNode::post_order(*node));
            },
        }
    }

    /// The keys in ascending order.
    pub fn print_in_order_traversal(&self) -> (vec: Vec<u32>)
        ensures
            vec@ == self.in_order(),
            vec@.to_set() == self@,
            self.is_ordered() ==> strictly_increasing(vec@) && self@.finite() && vec@.len()
                == self@.len(),
    {
        let mut vec = Vec::new();
        self.nodes_in_order(&self.root, &mut vec);
        proof {
            assert(vec@ =~= self.in_order());
            TreeNode::lemma_traversals(self.root);
            if self.is_ordered() {
                self.lemma_in_order();
            }
        }
        vec
    }

    /// The keys in pre-order.
    pub fn print_pre_order_traversal(&self) -> (vec: Vec<u32>)
        ensures
            vec@ == self.pre_order(),
            vec@.to_set() == self@,
    {
        let mut vec = Vec::new();
        self.nodes_pre_order(&self.root, &mut vec);
        proof {
            assert(vec@ =~= self.pre_order());
            TreeNode::lemma_traversals(self.root);
        }
        vec
    }

    /// The keys in post-order.
    pub fn print_post_order_traversal(&self) -> (vec: Vec<u32>)
        ensures
            vec@ == self.post_order(),
            vec@.to_set() == self@,
    {
        let mut vec = Vec::new();
        self.nodes_post_order(&self.root, &mut vec);
        proof {
            assert(vec@ =~= self.post_order());
            TreeNode::lemma_traversals(self.root);
        }
        vec
    }

    /// The number of keys, cut to 32 bits.
    pub fn total_number_elements(&self) -> (n: i32)
        requires
            self.wf(),
        ensures
            self@.finite(),
            n == self@.len() as i32,
            self@.len() <= i32::MAX ==> n == self@.len(),
    {
        let res_vec = Self::vec_nodes_in_order(self);
        proof {
            TreeNode::lemma_in_order(self.root);
            TreeNode::lemma_traversals(self.root);
            assert(res_vec@.no_duplicates());
            res_vec@.unique_seq_to_set();
            vstd::seq_lib::seq_to_set_is_finite(res_vec@);
        }
        #[verifier::truncate]
        (res_vec.len() as i32)
    }
}

impl TreeNode<u32> {
    /// Every key of `t` lies strictly between the bounds that are given.
    spec fn within(t: RedBlackTree, lo: Option<u32>, hi: Option<u32>) -> bool {
        forall|k: u32| #[trigger]
            Self::keys_of(t).contains(k) ==> (lo matches Some(a) ==> a < k) && (hi matches Some(
                b,
            ) ==> k < b)
    }

    /// Checks ordering and both color rules of a subtree, with the bounds that
    /// the ancestors impose on its keys; yields its black height if it is sound.
    fn validate_within(node: &RedBlackTree, lo: Option<u32>, hi: Option<u32>) -> (sound: Option<u32>)
        ensures
            sound is Some <==> Self::rb(*node) && Self::within(*node, lo, hi),
            sound matches Some(b) ==> b == Self::black_height(*node),
        decreases *node,
    {
        proof {
            Self::lemma_unfold(*node);
        }
        match node {
            None => {
                Some(0)
            },
            Some(n) => {
                if let Some(a) = lo {
                    if !(a < n.key) {
                        return None;
                    }
                }
                if let Some(b) = hi {
                    if !(n.key < b) {
                        return None;
                    }
                }
                let left = Self::validate_within(&n.left, lo, Some(n.key));
                if left.is_none() {
                    proof {
                        if Self::rb(*node) && Self::within(*node, lo, hi) {
                            assert forall|k: u32| #[trigger]
                                Self::keys_of(n.left).contains(k) implies (lo matches Some(a)
                                ==> a < k) && k < n.key by {
                                assert(Self::keys_of(*node).contains(k));
                            }
                            assert(false);
                        }
                    }
                    return None;
                }
                let right = Self::validate_within(&n.right, Some(n.key), hi);
                if right.is_none() {
                    proof {
                        if Self::rb(*node) && Self::within(*node, lo, hi) {
                            assert forall|k: u32| #[trigger]
                                Self::keys_of(n.right).contains(k) implies (hi matches Some(b)
                                ==> k < b) && n.key < k by {
                                assert(Self::keys_of(*node).contains(k));
                            }
                            assert(false);
                        }
                    }
                    return None;
                }
                proof {
                    Self::lemma_bounds(n.left);
                    assert(Self::ordered(*node));
                    assert forall|k: u32| #[trigger] Self::keys_of(*node).contains(k) implies (
                    lo matches Some(a) ==> a < k) && (hi matches Some(b) ==> k < b) by {
                        if Self::keys_of(n.left).contains(k) {
                        } else if Self::keys_of(n.right).contains(k) {
                        }
                    }
                }
                let lb = left.unwrap();
                let rb = right.unwrap();
                if lb != rb {
                    return None;
                }
                if n.color == NodeColor::Red {
                    if RBTree::get_color(&n.left) == NodeColor::Red || RBTree::get_color(&n.right)
                        == NodeColor::Red {
                        return None;
                    }
                    Some(lb)
                } else {
                    Some(lb + 1)
                }
            },
        }
    }
}

impl RBTree {
    /// Checks every invariant of the tree at run time.
    pub fn validate(&self) -> (ok: bool)
        ensures
            ok == self.wf(),
    {
        proof {
            TreeNode::lemma_unfold(self.root);
        }
        if Self::get_color(&self.root) == NodeColor::Red {
            return false;
        }
        TreeNode::validate_within(&self.root, None, None).is_some()
    }
}

impl RBTree {
    /// The in-order sequence of an ordered tree lists each key once, smallest first.
    pub proof fn lemma_in_order(&self)
        requires
            self.is_ordered(),
        ensures
            strictly_increasing(self.in_order()),
            self.in_order().to_set() == self@,
            self.in_order().no_duplicates(),
            self@.finite(),
            self@.len() == self.in_order().len(),
    {
        TreeNode::lemma_in_order(self.root);
        TreeNode::lemma_traversals(self.root);
        assert(self.in_order().no_duplicates());
        self.in_order().unique_seq_to_set();
        vstd::seq_lib::seq_to_set_is_finite(self.in_order());
    }

    /// A valid tree of black height `b` holds at least `2^b - 1` keys and is
    /// at most `2b` levels tall.
    pub proof fn lemma_height(&self)
        requires
            self.wf(),
        ensures
            self@.finite(),
            pow2(self.black_height()) <= self@.len() + 1,
            self.height() <= 2 * self.black_height(),
            self.height() <= 65,
    {
        self.lemma_in_order();
        TreeNode::lemma_traversals(self.root);
        TreeNode::lemma_black_height(self.root);
        TreeNode::lemma_bounds(self.root);
    }
}

impl TreeNode<u32> {
    /// The lines of the diagram of `t`, drawn below ancestors with the given
    /// guides: the node itself with its key and color, then its left and its
    /// right subtree; an absent tree is one line without an entry.
    spec fn rows_of(t: RedBlackTree, guides: Seq<bool>, branch: Branch) -> Seq<
        RowView<(u32, NodeColor)>,
    >
        decreases t,
    {
        match t {
            None => seq![(guides, branch, None)],
            Some(n) => seq![(guides, branch, Some((n.key, n.color)))] + Self::rows_of(
                n.left,
                guides.push(branch.guides_on()),
                Branch::Left,
            ) + Self::rows_of(n.right, guides.push(branch.guides_on()), Branch::Right),
        }
    }
}

impl RBTree {
    /// The lines of the tree's diagram: each node with its key and color,
    /// followed by its left and its right subtree; an absent child, and the
    /// empty tree, is a line without an entry.
    pub closed spec fn diagram(&self) -> Seq<RowView<(u32, NodeColor)>> {
        TreeNode::rows_of(self.root, Seq::empty(), Branch::Root)
    }

    /// Appends the diagram rows of `node`, drawn below ancestors with the given guides.
    fn recursion_rows(
        node: &RedBlackTree,
        guides: &Vec<bool>,
        branch: Branch,
        out: &mut Vec<DiagramRow<(u32, NodeColor)>>,
    )
        ensures
            final(out)@.len() == old(out)@.len() + TreeNode::rows_of(*node, guides@, branch).len(),
            forall|i: int| 0 <= i < old(out)@.len() ==> final(out)@[i] == old(out)@[i],
            forall|j: int|
                0 <= j < TreeNode::rows_of(*node, guides@, branch).len() ==> (#[trigger] final(out)@[old(
                    out,
                )@.len() + j])@ == TreeNode::rows_of(*node, guides@, branch)[j],
        decreases *node,
    {
        let own = guides.clone();
        assert(own@ =~= guides@);
        match node {
            None => {
                out.push(DiagramRow { guides: own, branch, entry: None });
            },
            Some(n) => {
                out.push(DiagramRow { guides: own, branch, entry: Some((n.key, n.color)) });
                let mut below = guides.clone();
                assert(below@ =~= guides@);
                below.push(branch.is_guide());
                let ghost start = out@.len();
                Self::recursion_rows(&n.left, &below, Branch::Left, out);
                let ghost middle = out@.len();
                Self::recursion_rows(&n.right, &below, Branch::Right, out);
                proof {
                    let lines = TreeNode::rows_of(*node, guides@, branch);
                    let l = TreeNode::rows_of(n.left, below@, Branch::Left);
                    let r = TreeNode::rows_of(n.right, below@, Branch::Right);
                    assert(lines == seq![(guides@, branch, Some((n.key, n.color)))] + l + r);
                    assert forall|j: int| 0 <= j < lines.len() implies (#[trigger] out@[old(
                        out,
                    )@.len() + j])@ == lines[j] by {
                        if j == 0 {
                        } else if j < 1 + l.len() {
                            assert(out@[start + (j - 1)]@ == l[j - 1]);
                        } else {
                            assert(out@[middle + (j - 1 - l.len())]@ == r[j - 1 - l.len()]);
                        }
                    }
                }
            },
        }
    }

    /// The rows from which the tree can be drawn, top to bottom.
    pub fn diagram_rows(&self) -> (rows: Vec<DiagramRow<(u32, NodeColor)>>)
        ensures
            depicts(rows@, self.diagram()),
    {
        let mut rows = Vec::new();
        let guides: Vec<bool> = Vec::new();
        Self::recursion_rows(&self.root, &guides, Branch::Root, &mut rows);
        proof {
            assert(guides@ =~= Seq::<bool>::empty());
            assert forall|i: int| 0 <= i < rows@.len() implies (#[trigger] rows@[i])@
                == self.diagram()[i] by {
                assert(rows@[0 + i]@ == self.diagram()[i]);
            }
        }
        rows
    }
}

/// The tree as its root and its two subtrees: what a caller needs to follow an
/// operation node by node.
impl RBTree {
    /// The key at the root; none for the empty tree.
    pub closed spec fn root_key(&self) -> Option<u32> {
        match self.root {
            None => None,
            Some(n) => Some(n.key),
        }
    }

    /// The left subtree as a tree of its own; empty for the empty tree.
    pub closed spec fn left(&self) -> RBTree {
        match self.root {
            None => *self,
            Some(n) => RBTree { root: n.left },
        }
    }

    /// The right subtree as a tree of its own; empty for the empty tree.
    pub closed spec fn right(&self) -> RBTree {
        match self.root {
            None => *self,
            Some(n) => RBTree { root: n.right },
        }
    }

    /// The tree with the given root above the given subtrees.
    pub closed spec fn node(color: NodeColor, left: RBTree, key: u32, right: RBTree) -> RBTree {
        RBTree { root: TreeNode::node(color, left.root, key, right.root) }
    }

    /// The tree with its root painted `color`; the empty tree stays empty.
    pub closed spec fn painted(&self, color: NodeColor) -> RBTree {
        RBTree { root: TreeNode::repaint(self.root, color) }
    }

    /// The lines of the tree's diagram where it hangs as `branch` below
    /// ancestors with the given guides.
    pub closed spec fn rows(&self, guides: Seq<bool>, branch: Branch) -> Seq<
        RowView<(u32, NodeColor)>,
    > {
        TreeNode::rows_of(self.root, guides, branch)
    }

    /// The tree that inserting `val` gives before its root is painted black.
    pub closed spec fn grown(&self, val: u32) -> RBTree {
        RBTree { root: TreeNode::grown(self.root, val) }
    }

    /// What the repair after an insertion into the left (`left_side`) or the
    /// right subtree makes of a tree with a black root.
    pub closed spec fn relieved(&self, left_side: bool) -> RBTree {
        RBTree {
            root: if left_side {
                TreeNode::relieve_left(self.root)
            } else {
                TreeNode::relieve_right(self.root)
            },
        }
    }

    /// The largest key of the tree; zero for the empty tree.
    pub closed spec fn max_key(&self) -> u32 {
        TreeNode::max_key(self.root)
    }

    /// What deleting `val` leaves of the tree, and whether that is one black
    /// node short of what the tree was.
    pub closed spec fn shrunk(&self, val: u32) -> (RBTree, bool) {
        let out = TreeNode::shrunk(self.root, val);
        (RBTree { root: out.0 }, out.1)
    }

    /// What is left when the root, which has at most one child, is unlinked,
    /// and whether that is one black node short of what the tree was.
    pub closed spec fn spliced(&self) -> (RBTree, bool) {
        let out = TreeNode::spliced(self.root);
        (RBTree { root: out.0 }, out.1)
    }

    /// What the repair makes of a tree whose left (`left_side`) or right
    /// subtree is one black node short, and whether the shortage remains.
    pub closed spec fn mended(&self, left_side: bool) -> (RBTree, bool) {
        let out = if left_side {
            TreeNode::mend_left(self.root)
        } else {
            TreeNode::mend_right(self.root)
        };
        (RBTree { root: out.0 }, out.1)
    }

    /// The empty tree has no root, no key and no level, and is valid.
    pub proof fn lemma_empty()
        ensures
            Self::empty().root_key() is None,
            Self::empty().root_color() == NodeColor::Black,
            Self::empty().left() == Self::empty(),
            Self::empty().right() == Self::empty(),
            Self::empty()@ == Set::<u32>::empty(),
            Self::empty().wf(),
            Self::empty().height() == 0,
            Self::empty().black_height() == 0,
            Self::empty().leaf_count() == 0,
            Self::empty().in_order() == Seq::<u32>::empty(),
            Self::empty().pre_order() == Seq::<u32>::empty(),
            Self::empty().post_order() == Seq::<u32>::empty(),
            Self::empty().max_key() == 0,
            forall|c: NodeColor| #[trigger] Self::empty().painted(c) == Self::empty(),
    {
        TreeNode::lemma_unfold(None);
    }

    /// What `node` puts together, the accessors take apart.
    pub proof fn lemma_node(color: NodeColor, left: RBTree, key: u32, right: RBTree)
        ensures
            Self::node(color, left, key, right).root_key() == Some(key),
            Self::node(color, left, key, right).root_color() == color,
            Self::node(color, left, key, right).left() == left,
            Self::node(color, left, key, right).right() == right,
    {
    }

    /// Every tree is the empty tree or the node of its root and its subtrees.
    pub proof fn lemma_shape(&self)
        ensures
            self.root_key() is None ==> *self == Self::empty(),
            self.root_key() matches Some(k) ==> *self == Self::node(
                self.root_color(),
                self.left(),
                k,
                self.right(),
            ),
            self.root_key() is None <==> self@ == Set::<u32>::empty(),
    {
        TreeNode::lemma_unfold(self.root);
    }

    /// Keys, measures, traversals and invariants of a tree in terms of its
    /// root and its two subtrees.
    pub proof fn lemma_unfold(&self)
        requires
            self.root_key() is Some,
        ensures
            self.root_key() matches Some(k) && ({
                let l = self.left();
                let r = self.right();
                let black: nat = if self.root_color() == NodeColor::Black {
                    1
                } else {
                    0
                };
                &&& self@ == l@.union(r@).insert(k)
                &&& self.height() == 1 + if l.height() > r.height() {
                    l.height()
                } else {
                    r.height()
                }
                &&& self.black_height() == l.black_height() + black
                &&& self.leaf_count() == if l.root_key() is None && r.root_key() is None {
                    1
                } else {
                    l.leaf_count() + r.leaf_count()
                }
                &&& self.in_order() == l.in_order().push(k) + r.in_order()
                &&& self.pre_order() == seq![k] + l.pre_order() + r.pre_order()
                &&& self.post_order() == (l.post_order() + r.post_order()).push(k)
                &&& self.max_key() == if r.root_key() is None {
                    k
                } else {
                    r.max_key()
                }
                &&& self.is_ordered() == (l.is_ordered() && r.is_ordered() && (forall|j: u32| #[trigger]
                    l@.contains(j) ==> j < k) && (forall|j: u32| #[trigger] r@.contains(j) ==> k
                    < j))
                &&& self.reds_have_black_children() == (l.reds_have_black_children()
                    && r.reds_have_black_children() && (self.root_color() == NodeColor::Red
                    ==> l.root_color() == NodeColor::Black && r.root_color() == NodeColor::Black))
                &&& self.black_count_uniform() == (l.black_count_uniform()
                    && r.black_count_uniform() && l.black_height() == r.black_height())
            }),
    {
        TreeNode::lemma_unfold(self.root);
        let k = self.root_key()->0;
        let l = self.left();
        let r = self.right();
        assert(self@ == l@.union(r@).insert(k));
        assert(self.height() == 1 + if l.height() > r.height() {
            l.height()
        } else {
            r.height()
        });
        assert(self.leaf_count() == if l.root_key() is None && r.root_key() is None {
            1
        } else {
            l.leaf_count() + r.leaf_count()
        });
        assert(self.in_order() == l.in_order().push(k) + r.in_order());
        assert(self.pre_order() == seq![k] + l.pre_order() + r.pre_order());
        assert(self.post_order() == (l.post_order() + r.post_order()).push(k));
        assert(self.max_key() == if r.root_key() is None {
            k
        } else {
            r.max_key()
        });
        assert(self.is_ordered() == (l.is_ordered() && r.is_ordered() && (forall|j: u32| #[trigger]
            l@.contains(j) ==> j < k) && (forall|j: u32| #[trigger] r@.contains(j) ==> k < j)));
    }

    /// The diagram of a tree: its own line, then the rows of its subtrees
    /// with one more guide.
    pub proof fn lemma_rows(&self, guides: Seq<bool>, branch: Branch)
        ensures
            self.diagram() == self.rows(Seq::empty(), Branch::Root),
            self.root_key() is None ==> self.rows(guides, branch) == seq![
                (guides, branch, None::<(u32, NodeColor)>),
            ],
            self.root_key() matches Some(k) ==> self.rows(guides, branch) == seq![
                (guides, branch, Some((k, self.root_color()))),
            ] + self.left().rows(guides.push(branch.guides_on()), Branch::Left)
                + self.right().rows(guides.push(branch.guides_on()), Branch::Right),
    {
    }

    /// A tree with its root repainted.
    pub proof fn lemma_painted(&self, color: NodeColor)
        ensures
            self.root_key() is None ==> self.painted(color) == *self,
            self.root_key() matches Some(k) ==> self.painted(color) == Self::node(
                color,
                self.left(),
                k,
                self.right(),
            ),
    {
    }

    /// Insertion, one level at a time: the key becomes a red node where the
    /// search for it ends, each black node on the way repairs the side that
    /// took the key, and at the end the root is painted black.
    pub proof fn lemma_with_key(&self, val: u32)
        ensures
            self.with_key(val) == self.grown(val).painted(NodeColor::Black),
            self.root_key() is None ==> self.grown(val) == Self::node(
                NodeColor::Red,
                Self::empty(),
                val,
                Self::empty(),
            ),
            self.root_key() matches Some(k) ==> self.grown(val) == (if k == val {
                *self
            } else if k > val {
                let raw = Self::node(self.root_color(), self.left().grown(val), k, self.right());
                if self.root_color() == NodeColor::Black {
                    raw.relieved(true)
                } else {
                    raw
                }
            } else {
                let raw = Self::node(self.root_color(), self.left(), k, self.right().grown(val));
                if self.root_color() == NodeColor::Black {
                    raw.relieved(false)
                } else {
                    raw
                }
            }),
    {
    }

    /// The repair after an insertion. It acts only where the child on the
    /// side that took the key is red and has a red child. With a red uncle,
    /// child and uncle turn black and the root red. With a black uncle, the
    /// child's inner red child is first rotated outward; then the child
    /// becomes the black root and the old root its red child on the uncle's side.
    pub proof fn lemma_relieved(&self, left_side: bool)
        ensures
            ({
                let p = if left_side {
                    self.left()
                } else {
                    self.right()
                };
                let u = if left_side {
                    self.right()
                } else {
                    self.left()
                };
                let outer = if left_side {
                    p.left()
                } else {
                    p.right()
                };
                let inner = if left_side {
                    p.right()
                } else {
                    p.left()
                };
                let clash = p.root_key() is Some && p.root_color() == NodeColor::Red && (
                p.left().root_color() == NodeColor::Red || p.right().root_color()
                    == NodeColor::Red);
                match (self.root_key(), p.root_key()) {
                    (Some(k), Some(pk)) if clash => self.relieved(left_side) == (if u.root_color()
                        == NodeColor::Red {
                        Self::node(
                            NodeColor::Red,
                            self.left().painted(NodeColor::Black),
                            k,
                            self.right().painted(NodeColor::Black),
                        )
                    } else if outer.root_color() != NodeColor::Red {
                        let ck = inner.root_key()->0;
                        if left_side {
                            Self::node(
                                NodeColor::Black,
                                Self::node(NodeColor::Red, p.left(), pk, inner.left()),
                                ck,
                                Self::node(NodeColor::Red, inner.right(), k, u),
                            )
                        } else {
                            Self::node(
                                NodeColor::Black,
                                Self::node(NodeColor::Red, u, k, inner.left()),
                                ck,
                                Self::node(NodeColor::Red, inner.right(), pk, p.right()),
                            )
                        }
                    } else if left_side {
                        Self::node(
                            NodeColor::Black,
                            p.left(),
                            pk,
                            Self::node(NodeColor::Red, p.right(), k, u),
                        )
                    } else {
                        Self::node(
                            NodeColor::Black,
                            Self::node(NodeColor::Red, u, k, p.left()),
                            pk,
                            p.right(),
                        )
                    }),
                    _ => self.relieved(left_side) == *self,
                }
            }),
    {
    }

    /// Deletion, one level at a time. A root with two children takes the
    /// largest key of its left subtree, which is then deleted there; a root
    /// with at most one child is unlinked; a shortage that comes back from a
    /// subtree is repaired on that side.
    pub proof fn lemma_without_key(&self, val: u32)
        ensures
            self.without_key(val) == (if self@.contains(val) {
                self.shrunk(val).0
            } else {
                *self
            }),
            self.root_key() is None ==> self.shrunk(val) == (*self, false),
            self.root_key() matches Some(k) ==> self.shrunk(val) == (if val < k {
                let sub = self.left().shrunk(val);
                let raw = Self::node(self.root_color(), sub.0, k, self.right());
                if sub.1 {
                    raw.mended(true)
                } else {
                    (raw, false)
                }
            } else if val > k {
                let sub = self.right().shrunk(val);
                let raw = Self::node(self.root_color(), self.left(), k, sub.0);
                if sub.1 {
                    raw.mended(false)
                } else {
                    (raw, false)
                }
            } else if self.left().root_key() is Some && self.right().root_key() is Some {
                let m = self.left().max_key();
                let sub = self.left().shrunk(m);
                let raw = Self::node(self.root_color(), sub.0, m, self.right());
                if sub.1 {
                    raw.mended(true)
                } else {
                    (raw, false)
                }
            } else {
                self.spliced()
            }),
    {
    }

    /// Unlinking a root with at most one child: the child, if any, takes its
    /// place and turns black; the place is one black node short where the
    /// root was black and leaves no child, or a black one.
    pub proof fn lemma_spliced(&self)
        ensures
            self.root_key() is None ==> self.spliced() == (*self, false),
            self.root_key() is Some ==> ({
                let child = if self.left().root_key() is Some {
                    self.left()
                } else {
                    self.right()
                };
                let both_black = child.root_color() == NodeColor::Black && self.root_color()
                    == NodeColor::Black;
                self.spliced() == (if child.root_key() is None || both_black {
                    (child, both_black)
                } else {
                    (child.painted(NodeColor::Black), false)
                })
            }),
    {
    }

    /// The repair of a shortage on one side, by the sibling `s` on the other
    /// side, whose outer child is the one away from the short side.
    ///
    /// A black sibling with a red left child gives up that child, else with a
    /// red right child that one: an inner child is lifted to the root by a
    /// double rotation, an outer one stays below the sibling, which is lifted
    /// by a single rotation; the root keeps its color and both its children
    /// are black. A black sibling without a red child turns red; the root
    /// turns black, and the shortage remains if it was black before. A red
    /// sibling becomes the black root, and the old root, painted red, is
    /// repaired one level down against the sibling's former inner child.
    pub proof fn lemma_mended(&self, left_side: bool)
        ensures
            ({
                let low = if left_side {
                    self.left()
                } else {
                    self.right()
                };
                let s = if left_side {
                    self.right()
                } else {
                    self.left()
                };
                let first_red = s.left().root_color() == NodeColor::Red;
                let second_red = s.right().root_color() == NodeColor::Red;
                match (self.root_key(), s.root_key()) {
                    (Some(k), Some(sk)) => if s.root_color() == NodeColor::Red {
                        if left_side {
                            s.left().root_color() == NodeColor::Black ==> ({
                                let deeper = Self::node(NodeColor::Red, low, k, s.left()).mended(
                                    true,
                                );
                                self.mended(true) == (
                                    Self::node(NodeColor::Black, deeper.0, sk, s.right()),
                                    deeper.1,
                                )
                            })
                        } else {
                            s.right().root_color() == NodeColor::Black ==> ({
                                let deeper = Self::node(NodeColor::Red, s.right(), k, low).mended(
                                    false,
                                );
                                self.mended(false) == (
                                    Self::node(NodeColor::Black, s.left(), sk, deeper.0),
                                    deeper.1,
                                )
                            })
                        }
                    } else if first_red {
                        let n = s.left();
                        self.mended(left_side) == (
                            if left_side {
                                Self::node(
                                    self.root_color(),
                                    Self::node(NodeColor::Black, low, k, n.left()),
                                    n.root_key()->0,
                                    Self::node(NodeColor::Black, n.right(), sk, s.right()),
                                )
                            } else {
                                Self::node(
                                    self.root_color(),
                                    n.painted(NodeColor::Black),
                                    sk,
                                    Self::node(NodeColor::Black, s.right(), k, low),
                                )
                            },
                            false,
                        )
                    } else if second_red {
                        let n = s.right();
                        self.mended(left_side) == (
                            if left_side {
                                Self::node(
                                    self.root_color(),
                                    Self::node(NodeColor::Black, low, k, s.left()),
                                    sk,
                                    n.painted(NodeColor::Black),
                                )
                            } else {
                                Self::node(
                                    self.root_color(),
                                    Self::node(NodeColor::Black, s.left(), sk, n.left()),
                                    n.root_key()->0,
                                    Self::node(NodeColor::Black, n.right(), k, low),
                                )
                            },
                            false,
                        )
                    } else {
                        self.mended(left_side) == (
                            if left_side {
                                Self::node(NodeColor::Black, low, k, s.painted(NodeColor::Red))
                            } else {
                                Self::node(NodeColor::Black, s.painted(NodeColor::Red), k, low)
                            },
                            self.root_color() == NodeColor::Black,
                        )
                    },
                    _ => self.mended(left_side) == (*self, false),
                }
            }),
    {
        TreeNode::lemma_unfold(self.root);
    }

    /// A tree of height `h` holds at most `2^h - 1` keys.
    pub proof fn lemma_count_below_height(&self)
        requires
            self.is_ordered(),
        ensures
            self@.finite(),
            self@.len() + 1 <= pow2(self.height()),
    {
        self.lemma_in_order();
        TreeNode::lemma_traversals(self.root);
        TreeNode::lemma_size_below_height(self.root);
    }
}

} // verus!
