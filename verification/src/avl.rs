//! AVL tree: a search tree in which the heights of the two subtrees of every
//! node differ by at most one, restored by rotations after each change.
//!
//! The keys are of any type that is `ranked`: strictly and totally ordered,
//! with at most 2^64 distinct values. Every node caches the height of its
//! subtree in an `i32`. A valid tree is at most 129 levels tall, so the cache
//! never overflows and the recursive operations never nest deeper than that.

use crate::diagram::{depicts, Branch, DiagramRow, RowView};
use crate::keys::{lemma_compare, rank, ranked};
use crate::seqs::{lemma_concat_has, lemma_push_has};
use crate::update::{update_verdict, UpdateError};
use vstd::arithmetic::power2::{
    lemma2_to64, lemma_pow2_strictly_increases, lemma_pow2_unfold, pow2,
};
use vstd::prelude::*;

verus! {

/// A tree is an optional owning pointer to its root node; `None` is the empty tree.
pub type AvlTreeNode<T> = Option<Box<TreeNode<T>>>;

/// One node: a key, the cached height of the subtree it roots, and two
/// exclusively owned subtrees.
#[derive(Debug)]
pub struct TreeNode<T: PartialOrd> {
    val: T,
    height: i32,
    left: AvlTreeNode<T>,
    right: AvlTreeNode<T>,
}

/// What an insertion reports to the level above it.
enum InnerResult {
    /// The subtree grew by one level and its left side is now the taller one.
    Left,
    /// The subtree grew by one level and its right side is now the taller one.
    Right,
    /// The subtree was empty and is now a single node.
    Unknown,
    /// The subtree kept its height.
    Balanced,
}

/// Every element is smaller than all elements after it.
pub open spec fn strictly_increasing<T: PartialOrd>(s: Seq<T>) -> bool {
    forall|i: int, j: int| 0 <= i < j < s.len() ==> rank(s[i]) < rank(s[j])
}

/// A strictly increasing sequence of keys spans at least its length in ranks.
proof fn lemma_increasing_span<T: PartialOrd>(s: Seq<T>, i: int)
    requires
        ranked::<T>(),
        strictly_increasing(s),
        0 <= i < s.len(),
    ensures
        rank(s[0]) + i <= rank(s[i]),
    decreases i,
{
    if i > 0 {
        lemma_increasing_span(s, i - 1);
    }
}

/// Two strictly increasing sequences with the same elements are equal.
proof fn lemma_increasing_unique<T: PartialOrd>(a: Seq<T>, b: Seq<T>)
    requires
        ranked::<T>(),
        strictly_increasing(a),
        strictly_increasing(b),
        forall|k: T| a.contains(k) <==> b.contains(k),
    ensures
        a == b,
    decreases a.len(),
{
    if a.len() == 0 {
        if b.len() > 0 {
            assert(b.contains(b[0]));
        }
        assert(a =~= b);
    } else {
        assert(a.contains(a.last()));
        assert(b.contains(a.last()));
        let j = choose|j: int| 0 <= j < b.len() && b[j] == a.last();
        assert(b.contains(b.last()));
        let i = choose|i: int| 0 <= i < a.len() && a[i] == b.last();
        assert(j == b.len() - 1);
        let a0 = a.drop_last();
        let b0 = b.drop_last();
        assert forall|k: T| a0.contains(k) <==> b0.contains(k) by {
            if a0.contains(k) {
                let x = choose|x: int| 0 <= x < a0.len() && a0[x] == k;
                assert(a[x] == k);
                assert(a.contains(k));
                let y = choose|y: int| 0 <= y < b.len() && b[y] == k;
                assert(y < b.len() - 1);
                assert(b0[y] == k);
            }
            if b0.contains(k) {
                let y = choose|y: int| 0 <= y < b0.len() && b0[y] == k;
                assert(b[y] == k);
                assert(b.contains(k));
                let x = choose|x: int| 0 <= x < a.len() && a[x] == k;
                assert(x < a.len() - 1);
                assert(a0[x] == k);
            }
        }
        lemma_increasing_unique(a0, b0);
        assert(a =~= a0.push(a.last()));
        assert(b =~= b0.push(b.last()));
    }
}

/// There are at most 2^64 distinct keys.
proof fn lemma_increasing_len<T: PartialOrd>(s: Seq<T>)
    requires
        ranked::<T>(),
        strictly_increasing(s),
    ensures
        s.len() <= 0x1_0000_0000_0000_0000,
{
    if s.len() > 0 {
        lemma_increasing_span(s, s.len() - 1);
    }
}

/// Which key a deletion is after.
enum DeleteValue<T: PartialOrd> {
    /// The smallest key of the subtree.
    Min,
    /// The largest key of the subtree.
    Max,
    /// The given key.
    Val(T),
}

impl<T: PartialOrd + Copy> DeleteValue<T> {
    /// `node` is the node that this deletion is after.
    spec fn hits(self, node: TreeNode<T>) -> bool {
        match self {
            DeleteValue::Min => node.left is None,
            DeleteValue::Max => node.right is None,
            DeleteValue::Val(v) => v == node.val,
        }
    }

    /// The search for the node to delete continues to the left of `node`.
    spec fn goes_left(self, node: TreeNode<T>) -> bool {
        match self {
            DeleteValue::Min => true,
            DeleteValue::Max => false,
            DeleteValue::Val(v) => rank(v) < rank(node.val),
        }
    }

    /// Whether `node` is the node that this deletion is after.
    fn eq(&self, node: &TreeNode<T>) -> (hit: bool)
        requires
            ranked::<T>(),
        ensures
            hit == self.hits(*node),
    {
        match self {
            DeleteValue::Min => node.left.is_none(),
            DeleteValue::Max => node.right.is_none(),
            DeleteValue::Val(v) => *v == node.val,
        }
    }

    /// Whether the search continues to the left of `node`.
    fn lt(&self, node: &TreeNode<T>) -> (below: bool)
        requires
            ranked::<T>(),
        ensures
            below == self.goes_left(*node),
    {
        match self {
            DeleteValue::Min => true,
            DeleteValue::Max => false,
            DeleteValue::Val(v) => *v < node.val,
        }
    }
}

impl<T: PartialOrd + Copy> TreeNode<T> {
    /// The keys stored in a tree.
    pub closed spec fn keys_of(t: AvlTreeNode<T>) -> Set<T>
        decreases t,
    {
        match t {
            None => Set::empty(),
            Some(n) => Self::keys_of(n.left).union(Self::keys_of(n.right)).insert(n.val),
        }
    }

    /// The number of nodes on the longest path from the root down.
    pub closed spec fn height_of(t: AvlTreeNode<T>) -> nat
        decreases t,
    {
        match t {
            None => 0,
            Some(n) => {
                let l = Self::height_of(n.left);
                let r = Self::height_of(n.right);
                if l >= r {
                    l + 1
                } else {
                    r + 1
                }
            },
        }
    }

    /// The number of nodes.
    pub closed spec fn size_of(t: AvlTreeNode<T>) -> nat
        decreases t,
    {
        match t {
            None => 0,
            Some(n) => Self::size_of(n.left) + Self::size_of(n.right) + 1,
        }
    }

    /// Keys in the order left subtree, node, right subtree.
    pub closed spec fn in_order(t: AvlTreeNode<T>) -> Seq<T>
        decreases t,
    {
        match t {
            None => Seq::empty(),
            Some(n) => Self::in_order(n.left).push(n.val) + Self::in_order(n.right),
        }
    }

    /// Keys in the order node, left subtree, right subtree.
    pub closed spec fn pre_order(t: AvlTreeNode<T>) -> Seq<T>
        decreases t,
    {
        match t {
            None => Seq::empty(),
            Some(n) => seq![n.val] + Self::pre_order(n.left) + Self::pre_order(n.right),
        }
    }

    /// Keys in the order left subtree, right subtree, node.
    pub closed spec fn post_order(t: AvlTreeNode<T>) -> Seq<T>
        decreases t,
    {
        match t {
            None => Seq::empty(),
            Some(n) => (Self::post_order(n.left) + Self::post_order(n.right)).push(n.val),
        }
    }

    /// The number of nodes without children.
    pub closed spec fn leaves_of(t: AvlTreeNode<T>) -> nat
        decreases t,
    {
        match t {
            None => 0,
            Some(n) => if n.left is None && n.right is None {
                1
            } else {
                Self::leaves_of(n.left) + Self::leaves_of(n.right)
            },
        }
    }

    /// Search-tree ordering: at every node, all keys to the left are smaller
    /// than the node's key and all keys to the right are larger.
    pub closed spec fn ordered(t: AvlTreeNode<T>) -> bool
        decreases t,
    {
        match t {
            None => true,
            Some(n) => {
                &&& Self::ordered(n.left)
                &&& Self::ordered(n.right)
                &&& forall|k: T| #[trigger] Self::keys_of(n.left).contains(k) ==> rank(k) < rank(n.val)
                &&& forall|k: T| #[trigger] Self::keys_of(n.right).contains(k) ==> rank(n.val) < rank(k)
            },
        }
    }

    /// Every node's cached height is the true height of its subtree.
    pub closed spec fn cached(t: AvlTreeNode<T>) -> bool
        decreases t,
    {
        match t {
            None => true,
            Some(n) => {
                &&& Self::cached(n.left)
                &&& Self::cached(n.right)
                &&& n.height == Self::height_of(t)
            },
        }
    }

    /// At every node the heights of the two subtrees differ by at most one.
    pub closed spec fn balanced(t: AvlTreeNode<T>) -> bool
        decreases t,
    {
        match t {
            None => true,
            Some(n) => {
                &&& Self::balanced(n.left)
                &&& Self::balanced(n.right)
                &&& Self::height_of(n.left) <= Self::height_of(n.right) + 1
                &&& Self::height_of(n.right) <= Self::height_of(n.left) + 1
            },
        }
    }

    /// All three invariants of the tree together.
    pub open spec fn avl(t: AvlTreeNode<T>) -> bool {
        Self::ordered(t) && Self::cached(t) && Self::balanced(t)
    }

    /// The height a node records for itself; zero for the empty tree.
    pub closed spec fn stored(t: AvlTreeNode<T>) -> int {
        match t {
            None => 0,
            Some(n) => n.height as int,
        }
    }

    /// The tree of one node that holds `v`.
    pub closed spec fn leaf(v: T) -> AvlTreeNode<T> {
        Self::join(None, v, None)
    }

    /// The node with the given key and subtrees whose cached height is right.
    pub closed spec fn join(l: AvlTreeNode<T>, v: T, r: AvlTreeNode<T>) -> AvlTreeNode<T> {
        let hl = Self::height_of(l);
        let hr = Self::height_of(r);
        Some(
            Box::new(
                TreeNode {
                    val: v,
                    height: (if hl >= hr {
                        hl + 1
                    } else {
                        hr + 1
                    }) as i32,
                    left: l,
                    right: r,
                },
            ),
        )
    }

    /// The tree of `l`, `v` and `r`, brought back into balance where one side
    /// is two levels taller than the other: the taller child is lifted to the
    /// root by a single rotation if its outer subtree is at least as tall as
    /// its inner one, and its inner grandchild by a double rotation otherwise.
    pub closed spec fn rebalance(l: AvlTreeNode<T>, v: T, r: AvlTreeNode<T>) -> AvlTreeNode<T> {
        if Self::height_of(l) == Self::height_of(r) + 2 {
            match l {
                Some(x) => if Self::height_of(x.left) >= Self::height_of(x.right) {
                    Self::join(x.left, x.val, Self::join(x.right, v, r))
                } else {
                    match x.right {
                        Some(z) => Self::join(
                            Self::join(x.left, x.val, z.left),
                            z.val,
                            Self::join(z.right, v, r),
                        ),
                        None => Self::join(l, v, r),
                    }
                },
                None => Self::join(l, v, r),
            }
        } else if Self::height_of(r) == Self::height_of(l) + 2 {
            match r {
                Some(x) => if Self::height_of(x.right) >= Self::height_of(x.left) {
                    Self::join(Self::join(l, v, x.left), x.val, x.right)
                } else {
                    match x.left {
                        Some(z) => Self::join(
                            Self::join(l, v, z.left),
                            z.val,
                            Self::join(z.right, x.val, x.right),
                        ),
                        None => Self::join(l, v, r),
                    }
                },
                None => Self::join(l, v, r),
            }
        } else {
            Self::join(l, v, r)
        }
    }

    /// The tree that inserting `v` into `t` gives: the key goes where the
    /// search for it ends, and every node on the way back up is rebalanced. A
    /// key that `t` holds leaves it as it is.
    pub closed spec fn with_key(t: AvlTreeNode<T>, v: T) -> AvlTreeNode<T>
        decreases t,
    {
        match t {
            None => Self::join(None, v, None),
            Some(n) => if v == n.val {
                t
            } else if rank(v) < rank(n.val) {
                Self::rebalance(Self::with_key(n.left, v), n.val, n.right)
            } else {
                Self::rebalance(n.left, n.val, Self::with_key(n.right, v))
            },
        }
    }

    /// The key at the right end of a tree; unspecified for the empty tree.
    pub closed spec fn max_key(t: AvlTreeNode<T>) -> T
        decreases t,
    {
        match t {
            None => arbitrary(),
            Some(n) => if n.right is None {
                n.val
            } else {
                Self::max_key(n.right)
            },
        }
    }

    /// The key at the left end of a tree; unspecified for the empty tree.
    pub closed spec fn min_key(t: AvlTreeNode<T>) -> T
        decreases t,
    {
        match t {
            None => arbitrary(),
            Some(n) => if n.left is None {
                n.val
            } else {
                Self::min_key(n.left)
            },
        }
    }

    /// The tree that a deletion aimed at `d` leaves of `t`. A node with at
    /// most one child gives way to that child. A node with two children
    /// takes the largest key of its left subtree if that subtree is at least
    /// as tall as the right one, else the smallest key of its right subtree,
    /// and the node that held that key is removed instead. Every node on the
    /// way back up is rebalanced.
    spec fn without(t: AvlTreeNode<T>, d: DeleteValue<T>) -> AvlTreeNode<T>
        decreases t,
    {
        match t {
            None => None,
            Some(n) => if d.hits(*n) {
                if n.left is Some && n.right is Some {
                    if Self::height_of(n.left) >= Self::height_of(n.right) {
                        Self::join(
                            Self::without(n.left, DeleteValue::Max),
                            Self::max_key(n.left),
                            n.right,
                        )
                    } else {
                        Self::join(
                            n.left,
                            Self::min_key(n.right),
                            Self::without(n.right, DeleteValue::Min),
                        )
                    }
                } else if n.left is Some {
                    n.left
                } else {
                    n.right
                }
            } else if d.goes_left(*n) {
                Self::rebalance(Self::without(n.left, d), n.val, n.right)
            } else {
                Self::rebalance(n.left, n.val, Self::without(n.right, d))
            },
        }
    }

    /// The tree that deleting the key `v` leaves of `t`; `t` itself where it
    /// does not hold `v`.
    pub closed spec fn without_key(t: AvlTreeNode<T>, v: T) -> AvlTreeNode<T> {
        Self::without(t, DeleteValue::Val(v))
    }

    /// The height that the root records for itself; zero for the empty tree.
    fn cached_height(t: &AvlTreeNode<T>) -> (h: i32)
        ensures
            h == Self::stored(*t),
            Self::cached(*t) ==> h == Self::height_of(*t),
    {
        match t {
            None => 0,
            Some(node) => node.height,
        }
    }

    /// Recomputes the cached height of the root from those of its children.
    fn update_height(t: &mut AvlTreeNode<T>)
        requires
            Self::height_of(*old(t)) < i32::MAX,
            *old(t) matches Some(n) ==> Self::cached(n.left) && Self::cached(n.right),
        ensures
            *old(t) is None ==> *final(t) is None,
            *old(t) matches Some(n) ==> *final(t) == Self::join(n.left, n.val, n.right),
            Self::cached(*final(t)),
    {
        match t {
            None => {},
            Some(node) => {
                let l = Self::cached_height(&node.left);
                let r = Self::cached_height(&node.right);
                node.height = if l >= r {
                    l + 1
                } else {
                    r + 1
                };
            },
        }
    }

    /// Left-minus-right height difference at the root, from the cached heights
    /// of the children.
    fn balance_factor(t: &AvlTreeNode<T>) -> (f: i32)
        requires
            t matches Some(n) ==> Self::cached(n.left) && Self::cached(n.right)
                && Self::height_of(n.left) < i32::MAX && Self::height_of(n.right) < i32::MAX,
        ensures
            t is None ==> f == 0,
            t matches Some(n) ==> f == Self::height_of(n.left) - Self::height_of(n.right),
    {
        match t {
            None => 0,
            Some(node) => Self::cached_height(&node.left) - Self::cached_height(&node.right),
        }
    }

    /// A tree of one node is a valid tree of height one holding that one key.
    pub proof fn lemma_leaf(v: T)
        ensures
            Self::avl(Self::leaf(v)),
            Self::keys_of(Self::leaf(v)) == Set::<T>::empty().insert(v),
            Self::height_of(Self::leaf(v)) == 1,
    {
        let t = Self::leaf(v);
        assert(Self::height_of(None) == 0);
        assert(Self::keys_of(None) =~= Set::<T>::empty());
        assert(Self::ordered(None) && Self::balanced(None) && Self::cached(None));
        assert(Self::keys_of(t) =~= Set::<T>::empty().insert(v));
        assert(Self::height_of(t) == 1);
        assert(Self::ordered(t));
        assert(Self::balanced(t));
        assert(Self::cached(t));
    }

    /// One step of each recursive definition at a non-empty tree.
    proof fn lemma_unfold(t: AvlTreeNode<T>)
        requires
            t is Some,
        ensures
            t matches Some(n) && ({
                let hl = Self::height_of(n.left);
                let hr = Self::height_of(n.right);
                &&& Self::height_of(t) == if hl >= hr {
                    hl + 1
                } else {
                    hr + 1
                }
                &&& Self::size_of(t) == Self::size_of(n.left) + Self::size_of(n.right) + 1
                &&& Self::balanced(t) == (Self::balanced(n.left) && Self::balanced(n.right) && hl
                    <= hr + 1 && hr <= hl + 1)
                &&& Self::keys_of(t) == Self::keys_of(n.left).union(Self::keys_of(n.right)).insert(
                    n.val,
                )
                &&& Self::cached(t) == (Self::cached(n.left) && Self::cached(n.right) && n.height
                    == Self::height_of(t))
            }),
            Self::height_of(None) == 0,
    {
    }

    /// Lifting the left child to the root keeps the keys, the node count and
    /// the search-tree ordering.
    proof fn lemma_rotation_right(t: AvlTreeNode<T>)
        requires
            t matches Some(y) && y.left is Some,
        ensures
            t matches Some(y) && (y.left matches Some(x) && ({
                let u = Self::join(x.left, x.val, Self::join(x.right, y.val, y.right));
                &&& Self::keys_of(u) == Self::keys_of(t)
                &&& Self::size_of(u) == Self::size_of(t)
                &&& Self::ordered(t) ==> Self::ordered(u)
                &&& Self::height_of(u) <= Self::height_of(t) + 1
                &&& Self::balanced(y.left) && Self::balanced(y.right) && Self::height_of(y.left)
                    == Self::height_of(y.right) + 2 && Self::height_of(x.left) >= Self::height_of(
                    x.right,
                ) ==> Self::balanced(u) && Self::height_of(u) == Self::height_of(x.right) + 2
            })),
    {
        Self::lemma_unfold(t);
        Self::lemma_unfold((t->0).left);
        Self::lemma_unfold(Self::join(((t->0).left->0).right, (t->0).val, (t->0).right));
        Self::lemma_unfold(
            Self::join(
                ((t->0).left->0).left,
                ((t->0).left->0).val,
                Self::join(((t->0).left->0).right, (t->0).val, (t->0).right),
            ),
        );
        let y = t->0;
        let x = y.left->0;
        let low = Self::join(x.right, y.val, y.right);
        let u = Self::join(x.left, x.val, low);
        assert(Self::keys_of(y.left) == Self::keys_of(x.left).union(Self::keys_of(x.right)).insert(
            x.val,
        ));
        assert(Self::keys_of(low) == Self::keys_of(x.right).union(Self::keys_of(y.right)).insert(
            y.val,
        ));
        assert(Self::keys_of(u) =~= Self::keys_of(t));
        assert(Self::size_of(y.left) == Self::size_of(x.left) + Self::size_of(x.right) + 1);
        assert(Self::size_of(low) == Self::size_of(x.right) + Self::size_of(y.right) + 1);
        if Self::ordered(t) {
            assert(Self::ordered(y.left));
            assert(Self::keys_of(y.left).contains(x.val));
            assert forall|k: T| #[trigger] Self::keys_of(x.right).contains(k) implies rank(k)
                < rank(y.val) by {
                assert(Self::keys_of(y.left).contains(k));
            }
            assert(Self::ordered(low));
            assert forall|k: T| #[trigger] Self::keys_of(low).contains(k) implies rank(x.val) < rank(k) by {
                if Self::keys_of(y.right).contains(k) {
                    assert(rank(y.val) < rank(k));
                }
            }
            assert(Self::ordered(u));
        }
    }

    /// Lifting the right child to the root keeps the keys, the node count and
    /// the search-tree ordering.
    proof fn lemma_rotation_left(t: AvlTreeNode<T>)
        requires
            t matches Some(y) && y.right is Some,
        ensures
            t matches Some(y) && (y.right matches Some(x) && ({
                let u = Self::join(Self::join(y.left, y.val, x.left), x.val, x.right);
                &&& Self::keys_of(u) == Self::keys_of(t)
                &&& Self::size_of(u) == Self::size_of(t)
                &&& Self::ordered(t) ==> Self::ordered(u)
                &&& Self::height_of(u) <= Self::height_of(t) + 1
                &&& Self::balanced(y.left) && Self::balanced(y.right) && Self::height_of(y.right)
                    == Self::height_of(y.left) + 2 && Self::height_of(x.right) >= Self::height_of(
                    x.left,
                ) ==> Self::balanced(u) && Self::height_of(u) == Self::height_of(x.left) + 2
            })),
    {
        Self::lemma_unfold(t);
        Self::lemma_unfold((t->0).right);
        Self::lemma_unfold(Self::join((t->0).left, (t->0).val, ((t->0).right->0).left));
        Self::lemma_unfold(
            Self::join(
                Self::join((t->0).left, (t->0).val, ((t->0).right->0).left),
                ((t->0).right->0).val,
                ((t->0).right->0).right,
            ),
        );
        let y = t->0;
        let x = y.right->0;
        let low = Self::join(y.left, y.val, x.left);
        let u = Self::join(low, x.val, x.right);
        assert(Self::keys_of(y.right) == Self::keys_of(x.left).union(
            Self::keys_of(x.right),
        ).insert(x.val));
        assert(Self::keys_of(low) == Self::keys_of(y.left).union(Self::keys_of(x.left)).insert(
            y.val,
        ));
        assert(Self::keys_of(u) =~= Self::keys_of(t));
        assert(Self::size_of(y.right) == Self::size_of(x.left) + Self::size_of(x.right) + 1);
        assert(Self::size_of(low) == Self::size_of(y.left) + Self::size_of(x.left) + 1);
        if Self::ordered(t) {
            assert(Self::ordered(y.right));
            assert(Self::keys_of(y.right).contains(x.val));
            assert forall|k: T| #[trigger] Self::keys_of(x.left).contains(k) implies rank(y.val)
                < rank(k) by {
                assert(Self::keys_of(y.right).contains(k));
            }
            assert(Self::ordered(low));
            assert forall|k: T| #[trigger] Self::keys_of(low).contains(k) implies rank(k) < rank(x.val) by {
                if Self::keys_of(y.left).contains(k) {
                    assert(rank(k) < rank(y.val));
                }
            }
            assert(Self::ordered(u));
        }
    }

    /// Lifts the left child to the root; the old root becomes its right child
    /// and adopts the child's former right subtree.
    fn right_rotate(t: &mut AvlTreeNode<T>)
        requires
            Self::height_of(*old(t)) + 1 < i32::MAX,
            *old(t) matches Some(y) && (y.left matches Some(x) && Self::cached(x.left)
                && Self::cached(x.right) && Self::cached(y.right)),
        ensures
            *old(t) matches Some(y) && (y.left matches Some(x) && *final(t) == Self::join(
                x.left,
                x.val,
                Self::join(x.right, y.val, y.right),
            )),
            Self::cached(*final(t)),
            Self::keys_of(*final(t)) == Self::keys_of(*old(t)),
            Self::size_of(*final(t)) == Self::size_of(*old(t)),
            Self::ordered(*old(t)) ==> Self::ordered(*final(t)),
            *old(t) matches Some(y) && (y.left matches Some(x) && (Self::balanced(y.left)
                && Self::balanced(y.right) && Self::height_of(y.left) == Self::height_of(y.right)
                + 2 && Self::height_of(x.left) >= Self::height_of(x.right) ==> Self::balanced(
                *final(t),
            ) && Self::height_of(*final(t)) == Self::height_of(x.right) + 2)),
    {
        proof {
            Self::lemma_rotation_right(*old(t));
        }
        let mut root = t.take().unwrap();
        assert(Self::height_of(root.left) < Self::height_of(Some(root)));
        let mut node = root.left.take().unwrap();
        assert(Self::height_of(node.right) < Self::height_of(Some(node)));
        root.left = node.right.take();
        let mut lowered = Some(root);
        Self::update_height(&mut lowered);
        node.right = lowered;
        *t = Some(node);
        Self::update_height(t);
    }

    /// Lifts the right child to the root; the old root becomes its left child
    /// and adopts the child's former left subtree.
    fn left_rotate(t: &mut AvlTreeNode<T>)
        requires
            Self::height_of(*old(t)) + 1 < i32::MAX,
            *old(t) matches Some(y) && (y.right matches Some(x) && Self::cached(x.left)
                && Self::cached(x.right) && Self::cached(y.left)),
        ensures
            *old(t) matches Some(y) && (y.right matches Some(x) && *final(t) == Self::join(
                Self::join(y.left, y.val, x.left),
                x.val,
                x.right,
            )),
            Self::cached(*final(t)),
            Self::keys_of(*final(t)) == Self::keys_of(*old(t)),
            Self::size_of(*final(t)) == Self::size_of(*old(t)),
            Self::ordered(*old(t)) ==> Self::ordered(*final(t)),
            *old(t) matches Some(y) && (y.right matches Some(x) && (Self::balanced(y.left)
                && Self::balanced(y.right) && Self::height_of(y.right) == Self::height_of(y.left)
                + 2 && Self::height_of(x.right) >= Self::height_of(x.left) ==> Self::balanced(
                *final(t),
            ) && Self::height_of(*final(t)) == Self::height_of(x.left) + 2)),
    {
        proof {
            Self::lemma_rotation_left(*old(t));
        }
        let mut root = t.take().unwrap();
        assert(Self::height_of(root.right) < Self::height_of(Some(root)));
        let mut node = root.right.take().unwrap();
        assert(Self::height_of(node.left) < Self::height_of(Some(node)));
        root.right = node.left.take();
        let mut lowered = Some(root);
        Self::update_height(&mut lowered);
        node.left = lowered;
        *t = Some(node);
        Self::update_height(t);
    }
    /// Double rotation for a left subtree that is heavy on its right: the left
    /// child is rotated left, then the root is rotated right.
    fn rotate_lr(t: &mut AvlTreeNode<T>)
        requires
            Self::height_of(*old(t)) + 2 < i32::MAX,
            *old(t) matches Some(y) && (y.left matches Some(x) && (x.right matches Some(z)
                && Self::cached(x.left) && Self::cached(z.left) && Self::cached(z.right)
                && Self::cached(y.right))),
        ensures
            *old(t) matches Some(y) && (y.left matches Some(x) && (x.right matches Some(z)
                && *final(t) == Self::join(
                Self::join(x.left, x.val, z.left),
                z.val,
                Self::join(z.right, y.val, y.right),
            ))),
            Self::cached(*final(t)),
            Self::keys_of(*final(t)) == Self::keys_of(*old(t)),
            Self::size_of(*final(t)) == Self::size_of(*old(t)),
            Self::ordered(*old(t)) ==> Self::ordered(*final(t)),
            *old(t) matches Some(y) && (y.left matches Some(x) && (Self::balanced(y.left)
                && Self::balanced(y.right) && Self::height_of(y.left) == Self::height_of(y.right)
                + 2 && Self::height_of(x.left) < Self::height_of(x.right) ==> Self::balanced(
                *final(t),
            ) && Self::height_of(*final(t)) == Self::height_of(y.left))),
    {
        let ghost y = (*old(t))->0;
        let ghost x = y.left->0;
        let ghost z = x.right->0;
        assert(Self::height_of(y.left) < Self::height_of(*old(t)));
        assert(Self::height_of(x.right) < Self::height_of(y.left));
        assert(Self::balanced(y.left) ==> Self::balanced(x.left) && Self::balanced(x.right));
        assert(Self::balanced(x.right) ==> Self::balanced(z.left) && Self::balanced(z.right));
        assert(Self::ordered(*old(t)) ==> Self::ordered(y.left));
        let root = t.as_mut().unwrap();
        Self::left_rotate(&mut root.left);
        assert(Self::ordered(*old(t)) ==> Self::ordered(*t)) by {
            assert(Self::keys_of((*t)->0.left) == Self::keys_of(y.left));
        }
        assert(Self::keys_of(*t) == Self::keys_of(*old(t)));
        assert(Self::size_of(*t) == Self::size_of(*old(t)));
        Self::right_rotate(t);
        proof {
            let low_l = Self::join(x.left, x.val, z.left);
            let low_r = Self::join(z.right, y.val, y.right);
            Self::lemma_unfold(*old(t));
            Self::lemma_unfold(y.left);
            Self::lemma_unfold(x.right);
            Self::lemma_unfold(low_l);
            Self::lemma_unfold(low_r);
            Self::lemma_unfold(Self::join(low_l, z.val, low_r));
        }
    }

    /// Double rotation for a right subtree that is heavy on its left: the right
    /// child is rotated right, then the root is rotated left.
    fn rotate_rl(t: &mut AvlTreeNode<T>)
        requires
            Self::height_of(*old(t)) + 2 < i32::MAX,
            *old(t) matches Some(y) && (y.right matches Some(x) && (x.left matches Some(z)
                && Self::cached(x.right) && Self::cached(z.left) && Self::cached(z.right)
                && Self::cached(y.left))),
        ensures
            *old(t) matches Some(y) && (y.right matches Some(x) && (x.left matches Some(z)
                && *final(t) == Self::join(
                Self::join(y.left, y.val, z.left),
                z.val,
                Self::join(z.right, x.val, x.right),
            ))),
            Self::cached(*final(t)),
            Self::keys_of(*final(t)) == Self::keys_of(*old(t)),
            Self::size_of(*final(t)) == Self::size_of(*old(t)),
            Self::ordered(*old(t)) ==> Self::ordered(*final(t)),
            *old(t) matches Some(y) && (y.right matches Some(x) && (Self::balanced(y.left)
                && Self::balanced(y.right) && Self::height_of(y.right) == Self::height_of(y.left)
                + 2 && Self::height_of(x.right) < Self::height_of(x.left) ==> Self::balanced(
                *final(t),
            ) && Self::height_of(*final(t)) == Self::height_of(y.right))),
    {
        let ghost y = (*old(t))->0;
        let ghost x = y.right->0;
        let ghost z = x.left->0;
        assert(Self::height_of(y.right) < Self::height_of(*old(t)));
        assert(Self::height_of(x.left) < Self::height_of(y.right));
        assert(Self::balanced(y.right) ==> Self::balanced(x.left) && Self::balanced(x.right));
        assert(Self::balanced(x.left) ==> Self::balanced(z.left) && Self::balanced(z.right));
        assert(Self::ordered(*old(t)) ==> Self::ordered(y.right));
        let root = t.as_mut().unwrap();
        Self::right_rotate(&mut root.right);
        assert(Self::ordered(*old(t)) ==> Self::ordered(*t)) by {
            assert(Self::keys_of((*t)->0.right) == Self::keys_of(y.right));
        }
        assert(Self::keys_of(*t) == Self::keys_of(*old(t)));
        assert(Self::size_of(*t) == Self::size_of(*old(t)));
        Self::left_rotate(t);
        proof {
            let low_l = Self::join(y.left, y.val, z.left);
            let low_r = Self::join(z.right, x.val, x.right);
            Self::lemma_unfold(*old(t));
            Self::lemma_unfold(y.right);
            Self::lemma_unfold(x.left);
            Self::lemma_unfold(low_l);
            Self::lemma_unfold(low_r);
            Self::lemma_unfold(Self::join(low_l, z.val, low_r));
        }
    }
    /// The in-order sequence of an ordered tree lists each key once, smallest first.
    pub proof fn lemma_in_order(t: AvlTreeNode<T>)
        requires
            ranked::<T>(),
            Self::ordered(t),
        ensures
            strictly_increasing(Self::in_order(t)),
            Self::in_order(t).len() == Self::size_of(t),
            forall|k: T| Self::in_order(t).contains(k) <==> Self::keys_of(t).contains(k),
        decreases t,
    {
        match t {
            None => {},
            Some(n) => {
                Self::lemma_in_order(n.left);
                Self::lemma_in_order(n.right);
                let a = Self::in_order(n.left);
                let b = Self::in_order(n.right);
                let s = Self::in_order(t);
                assert(s == a.push(n.val) + b);
                assert forall|k: T| s.contains(k) <==> Self::keys_of(t).contains(k) by {
                    if s.contains(k) {
                        let i = choose|i: int| 0 <= i < s.len() && s[i] == k;
                        if i < a.len() {
                            assert(a[i] == k);
                            assert(a.contains(k));
                        } else if i > a.len() {
                            assert(b[i - a.len() - 1] == k);
                            assert(b.contains(k));
                        }
                    }
                    if Self::keys_of(n.left).contains(k) {
                        assert(a.contains(k));
                        let i = choose|i: int| 0 <= i < a.len() && a[i] == k;
                        assert(s[i] == k);
                    }
                    if Self::keys_of(n.right).contains(k) {
                        assert(b.contains(k));
                        let i = choose|i: int| 0 <= i < b.len() && b[i] == k;
                        assert(s[a.len() + 1 + i] == k);
                    }
                    if k == n.val {
                        assert(s[a.len() as int] == k);
                    }
                }
                assert forall|i: int, j: int| 0 <= i < j < s.len() implies rank(s[i]) < rank(
                    s[j],
                ) by {
                    if i < a.len() {
                        assert(a.contains(a[i]));
                        assert(Self::keys_of(n.left).contains(s[i]));
                    }
                    if j > a.len() {
                        assert(b.contains(b[j - a.len() - 1]));
                        assert(Self::keys_of(n.right).contains(s[j]));
                    }
                }
            },
        }
    }

    /// A balanced tree of height `h` has at least `2^(h/2) - 1` nodes.
    pub proof fn lemma_height_log(t: AvlTreeNode<T>)
        requires
            Self::balanced(t),
        ensures
            pow2(Self::height_of(t) / 2) <= Self::size_of(t) + 1,
        decreases t,
    {
        lemma2_to64();
        match t {
            None => {},
            Some(n) => {
                Self::lemma_height_log(n.left);
                Self::lemma_height_log(n.right);
                let h = Self::height_of(t);
                let hl = Self::height_of(n.left);
                let hr = Self::height_of(n.right);
                if h >= 2 {
                    let e = ((h - 2) / 2) as nat;
                    assert(h / 2 == e + 1);
                    lemma_pow2_unfold(h / 2);
                    assert(hl >= h - 2 && hr >= h - 2);
                    if hl / 2 > e {
                        lemma_pow2_strictly_increases(e, hl / 2);
                    }
                    if hr / 2 > e {
                        lemma_pow2_strictly_increases(e, hr / 2);
                    }
                    assert(pow2(e) <= pow2(hl / 2));
                    assert(pow2(e) <= pow2(hr / 2));
                }
            },
        }
    }

    /// A valid tree holds at most 2^64 keys, is never taller than 129 levels
    /// and has at most 2^63 leaves.
    pub proof fn lemma_height_bound(t: AvlTreeNode<T>)
        requires
            ranked::<T>(),
            Self::ordered(t),
            Self::balanced(t),
        ensures
            Self::height_of(t) <= 129,
            Self::size_of(t) <= 0x1_0000_0000_0000_0000,
            Self::leaves_of(t) <= 0x8000_0000_0000_0000,
    {
        Self::lemma_in_order(t);
        lemma_increasing_len(Self::in_order(t));
        Self::lemma_height_log(t);
        Self::lemma_leaves(t);
        lemma2_to64();
        let e = Self::height_of(t) / 2;
        if e >= 65 {
            lemma_pow2_unfold(65);
            if e > 65 {
                lemma_pow2_strictly_increases(65, e);
            }
            assert(pow2(65) == 0x2_0000_0000_0000_0000);
        }
    }

    /// Twice the number of leaves is at most one more than the number of nodes.
    pub proof fn lemma_leaves(t: AvlTreeNode<T>)
        ensures
            2 * Self::leaves_of(t) <= Self::size_of(t) + 1,
        decreases t,
    {
        match t {
            None => {},
            Some(n) => {
                Self::lemma_leaves(n.left);
                Self::lemma_leaves(n.right);
            },
        }
    }

    /// What a subtree's insertion report says about the subtree, given the
    /// height `h0` that it had before.
    spec fn reported(res: InnerResult, sub: AvlTreeNode<T>, h0: nat) -> bool {
        match res {
            InnerResult::Balanced => Self::height_of(sub) == h0,
            InnerResult::Unknown => h0 == 0 && Self::height_of(sub) == 1,
            InnerResult::Left => h0 >= 1 && Self::height_of(sub) == h0 + 1 && (sub matches Some(n)
                && Self::height_of(n.left) == Self::height_of(n.right) + 1),
            InnerResult::Right => h0 >= 1 && Self::height_of(sub) == h0 + 1 && (sub matches Some(n)
                && Self::height_of(n.right) == Self::height_of(n.left) + 1),
        }
    }

    /// Restores balance at a node whose left subtree has just taken a new key.
    fn settle_left(
        t: &mut AvlTreeNode<T>,
        sub: InnerResult,
        height: i32,
        Ghost(h0): Ghost<nat>,
    ) -> (res: InnerResult)
        requires
            ranked::<T>(),
            *old(t) matches Some(n) && (Self::avl(n.left) && Self::avl(n.right) && Self::reported(
                sub,
                n.left,
                h0,
            ) && h0 <= Self::height_of(n.right) + 1 && Self::height_of(n.right) <= h0 + 1 && height
                == (if h0 >= Self::height_of(n.right) {
                h0 + 1
            } else {
                Self::height_of(n.right) + 1
            }) && n.height == height),
            Self::ordered(*old(t)),
            height <= 129,
        ensures
            Self::avl(*final(t)),
            Self::keys_of(*final(t)) == Self::keys_of(*old(t)),
            sub is Balanced ==> *final(t) == *old(t),
            Self::reported(res, *final(t), height as nat),
            !(res is Unknown),
            *old(t) matches Some(n) && *final(t) == Self::rebalance(n.left, n.val, n.right),
    {
        proof {
            Self::lemma_unfold(*t);
            if (*t)->0.left is Some {
                let x = (*t)->0.left->0;
                Self::lemma_unfold((*t)->0.left);
                if x.right is Some {
                    Self::lemma_unfold(x.right);
                }
            }
        }
        match sub {
            InnerResult::Balanced => InnerResult::Balanced,
            grown => {
                if Self::balance_factor(t) == 2 {
                    match grown {
                        InnerResult::Left => Self::right_rotate(t),
                        _ => Self::rotate_lr(t),
                    }
                    InnerResult::Balanced
                } else {
                    Self::update_height(t);
                    proof {
                        Self::lemma_unfold(*t);
                    }
                    if Self::cached_height(t) == height {
                        InnerResult::Balanced
                    } else {
                        InnerResult::Left
                    }
                }
            },
        }
    }

    /// Restores balance at a node whose right subtree has just taken a new key.
    fn settle_right(
        t: &mut AvlTreeNode<T>,
        sub: InnerResult,
        height: i32,
        Ghost(h0): Ghost<nat>,
    ) -> (res: InnerResult)
        requires
            ranked::<T>(),
            *old(t) matches Some(n) && (Self::avl(n.left) && Self::avl(n.right) && Self::reported(
                sub,
                n.right,
                h0,
            ) && h0 <= Self::height_of(n.left) + 1 && Self::height_of(n.left) <= h0 + 1 && height
                == (if h0 >= Self::height_of(n.left) {
                h0 + 1
            } else {
                Self::height_of(n.left) + 1
            }) && n.height == height),
            Self::ordered(*old(t)),
            height <= 129,
        ensures
            Self::avl(*final(t)),
            Self::keys_of(*final(t)) == Self::keys_of(*old(t)),
            sub is Balanced ==> *final(t) == *old(t),
            Self::reported(res, *final(t), height as nat),
            !(res is Unknown),
            *old(t) matches Some(n) && *final(t) == Self::rebalance(n.left, n.val, n.right),
    {
        proof {
            Self::lemma_unfold(*t);
            if (*t)->0.right is Some {
                let x = (*t)->0.right->0;
                Self::lemma_unfold((*t)->0.right);
                if x.left is Some {
                    Self::lemma_unfold(x.left);
                }
            }
        }
        match sub {
            InnerResult::Balanced => InnerResult::Balanced,
            grown => {
                if Self::balance_factor(t) == -2 {
                    match grown {
                        InnerResult::Right => Self::left_rotate(t),
                        _ => Self::rotate_rl(t),
                    }
                    InnerResult::Balanced
                } else {
                    Self::update_height(t);
                    proof {
                        Self::lemma_unfold(*t);
                    }
                    if Self::cached_height(t) == height {
                        InnerResult::Balanced
                    } else {
                        InnerResult::Right
                    }
                }
            },
        }
    }

    /// Recursive insertion with rebalancing on the way back up.
    fn do_insert(t: &mut AvlTreeNode<T>, val: T) -> (res: InnerResult)
        requires
            ranked::<T>(),
            Self::avl(*old(t)),
        ensures
            Self::avl(*final(t)),
            Self::keys_of(*final(t)) == Self::keys_of(*old(t)).insert(val),
            Self::keys_of(*old(t)).contains(val) ==> *final(t) == *old(t),
            Self::reported(res, *final(t), Self::height_of(*old(t))),
            *final(t) == Self::with_key(*old(t), val),
        decreases *old(t),
    {
        proof {
            Self::lemma_height_bound(*old(t));
        }
        if t.is_none() {
            *t = Some(Box::new(TreeNode { val, height: 1, left: None, right: None }));
            proof {
                Self::lemma_unfold(*t);
                assert(Self::keys_of(*t) =~= Self::keys_of(*old(t)).insert(val));
            }
            return InnerResult::Unknown;
        }
        let ghost before = (*old(t))->0;
        proof {
            Self::lemma_unfold(*old(t));
        }
        let height = Self::cached_height(t);
        let key = t.as_ref().unwrap().val;
        if val == key {
            assert(Self::keys_of(*t) =~= Self::keys_of(*t).insert(val));
            InnerResult::Balanced
        } else if val < key {
            let sub = Self::do_insert(&mut t.as_mut().unwrap().left, val);
            proof {
                let mid = (*t)->0;
                Self::lemma_unfold(*t);
                assert(mid.right == before.right && mid.val == before.val);
                assert(Self::keys_of(*t) =~= Self::keys_of(*old(t)).insert(val));
                assert(!Self::keys_of(before.right).contains(val));
                assert(Self::keys_of(before.left).contains(val) ==> *t == *old(t));
            }
            Self::settle_left(t, sub, height, Ghost(Self::height_of(before.left)))
        } else {
            let sub = Self::do_insert(&mut t.as_mut().unwrap().right, val);
            proof {
                let mid = (*t)->0;
                Self::lemma_unfold(*t);
                assert(mid.left == before.left && mid.val == before.val);
                assert(Self::keys_of(*t) =~= Self::keys_of(*old(t)).insert(val));
                assert(!Self::keys_of(before.left).contains(val));
                assert(Self::keys_of(before.right).contains(val) ==> *t == *old(t));
            }
            Self::settle_right(t, sub, height, Ghost(Self::height_of(before.right)))
        }
    }
    /// `k` is the key of `t` that a deletion aimed at `d` removes.
    spec fn picks(d: DeleteValue<T>, t: AvlTreeNode<T>, k: T) -> bool {
        &&& Self::keys_of(t).contains(k)
        &&& match d {
            DeleteValue::Min => forall|j: T| #[trigger] Self::keys_of(t).contains(j) ==> rank(k) <= rank(j),
            DeleteValue::Max => forall|j: T| #[trigger] Self::keys_of(t).contains(j) ==> rank(j) <= rank(k),
            DeleteValue::Val(v) => k == v,
        }
    }

    /// What a deletion leaves behind: `removed` is the detached node, if any.
    spec fn deleted(
        d: DeleteValue<T>,
        before: AvlTreeNode<T>,
        after: AvlTreeNode<T>,
        res: InnerResult,
        removed: AvlTreeNode<T>,
    ) -> bool {
        &&& Self::avl(after)
        &&& after == Self::without(before, d)
        &&& d is Max ==> (removed matches Some(node) && node.val == Self::max_key(before))
        &&& d is Min ==> (removed matches Some(node) && node.val == Self::min_key(before))
        &&& match removed {
            None => after == before && res is Balanced && (d matches DeleteValue::Val(v)
                && !Self::keys_of(before).contains(v)),
            Some(node) => Self::picks(d, before, node.val) && removed == Self::join(
                None,
                node.val,
                None,
            ) && Self::keys_of(after) == Self::keys_of(before).remove(node.val),
        }
        &&& match res {
            InnerResult::Balanced => Self::height_of(after) == Self::height_of(before),
            InnerResult::Unknown => Self::height_of(after) + 1 == Self::height_of(before),
            _ => false,
        }
    }

    /// Restores balance at a node whose left subtree has just lost one level.
    fn shrunk_left(t: &mut AvlTreeNode<T>, height: i32, Ghost(h0): Ghost<nat>) -> (res: InnerResult)
        requires
            ranked::<T>(),
            *old(t) matches Some(n) && (Self::avl(n.left) && Self::avl(n.right) && Self::height_of(
                n.left,
            ) + 1 == h0 && h0 <= Self::height_of(n.right) + 1 && Self::height_of(n.right) <= h0 + 1
                && height == (if h0 >= Self::height_of(n.right) {
                h0 + 1
            } else {
                Self::height_of(n.right) + 1
            })),
            Self::ordered(*old(t)),
            height <= 129,
        ensures
            Self::avl(*final(t)),
            Self::keys_of(*final(t)) == Self::keys_of(*old(t)),
            res is Balanced ==> Self::height_of(*final(t)) == height,
            res is Unknown ==> Self::height_of(*final(t)) + 1 == height,
            res is Balanced || res is Unknown,
            *old(t) matches Some(n) && *final(t) == Self::rebalance(n.left, n.val, n.right),
    {
        proof {
            Self::lemma_unfold(*t);
            if (*t)->0.right is Some {
                let x = (*t)->0.right->0;
                Self::lemma_unfold((*t)->0.right);
                if x.left is Some {
                    Self::lemma_unfold(x.left);
                }
            }
        }
        if Self::balance_factor(t) == -2 {
            let right = t.as_ref().unwrap().right.as_ref().unwrap();
            if Self::cached_height(&right.left) > Self::cached_height(&right.right) {
                Self::rotate_rl(t);
            } else {
                Self::left_rotate(t);
            }
        } else {
            Self::update_height(t);
            proof {
                Self::lemma_unfold(*t);
            }
        }
        if Self::cached_height(t) == height {
            InnerResult::Balanced
        } else {
            InnerResult::Unknown
        }
    }

    /// Restores balance at a node whose right subtree has just lost one level.
    fn shrunk_right(t: &mut AvlTreeNode<T>, height: i32, Ghost(h0): Ghost<nat>) -> (res: InnerResult)
        requires
            ranked::<T>(),
            *old(t) matches Some(n) && (Self::avl(n.left) && Self::avl(n.right) && Self::height_of(
                n.right,
            ) + 1 == h0 && h0 <= Self::height_of(n.left) + 1 && Self::height_of(n.left) <= h0 + 1
                && height == (if h0 >= Self::height_of(n.left) {
                h0 + 1
            } else {
                Self::height_of(n.left) + 1
            })),
            Self::ordered(*old(t)),
            height <= 129,
        ensures
            Self::avl(*final(t)),
            Self::keys_of(*final(t)) == Self::keys_of(*old(t)),
            res is Balanced ==> Self::height_of(*final(t)) == height,
            res is Unknown ==> Self::height_of(*final(t)) + 1 == height,
            res is Balanced || res is Unknown,
            *old(t) matches Some(n) && *final(t) == Self::rebalance(n.left, n.val, n.right),
    {
        proof {
            Self::lemma_unfold(*t);
            if (*t)->0.left is Some {
                let x = (*t)->0.left->0;
                Self::lemma_unfold((*t)->0.left);
                if x.right is Some {
                    Self::lemma_unfold(x.right);
                }
            }
        }
        if Self::balance_factor(t) == 2 {
            let left = t.as_ref().unwrap().left.as_ref().unwrap();
            if Self::cached_height(&left.left) >= Self::cached_height(&left.right) {
                Self::right_rotate(t);
            } else {
                Self::rotate_lr(t);
            }
        } else {
            Self::update_height(t);
            proof {
                Self::lemma_unfold(*t);
            }
        }
        if Self::cached_height(t) == height {
            InnerResult::Balanced
        } else {
            InnerResult::Unknown
        }
    }
    /// Unlinks a root that has at most one child; the child, if any, takes its place.
    fn detach_root(t: &mut AvlTreeNode<T>) -> (removed: AvlTreeNode<T>)
        requires
            *old(t) matches Some(n) && (n.left is None || n.right is None),
        ensures
            *old(t) matches Some(n) && removed == Self::join(None, n.val, None) && *final(t) == (
            if n.left is Some {
                n.left
            } else {
                n.right
            }),
    {
        let mut node = t.take().unwrap();
        if node.left.is_some() {
            *t = node.left.take();
        } else {
            *t = node.right.take();
        }
        let mut removed = Some(node);
        Self::update_height(&mut removed);
        removed
    }

    /// Putting the largest key of the left subtree in the root's place keeps
    /// the ordering and takes just the root's key out of the tree.
    proof fn lemma_took_from_left(n: TreeNode<T>, rest: AvlTreeNode<T>, m: T, h: i32)
        requires
            ranked::<T>(),
            Self::ordered(Some(Box::new(n))),
            Self::ordered(rest),
            Self::picks(DeleteValue::Max, n.left, m),
            Self::keys_of(rest) == Self::keys_of(n.left).remove(m),
        ensures
            ({
                let mid = Some(Box::new(TreeNode { val: m, height: h, left: rest, right: n.right }));
                Self::ordered(mid) && Self::keys_of(mid) == Self::keys_of(
                    Some(Box::new(n)),
                ).remove(n.val)
            }),
    {
        let t = Some(Box::new(n));
        let mid = Some(Box::new(TreeNode { val: m, height: h, left: rest, right: n.right }));
        assert(Self::keys_of(n.left).contains(m));
        assert forall|k: T| #[trigger] Self::keys_of(rest).contains(k) implies rank(k) < rank(m) by {
            assert(Self::keys_of(n.left).contains(k));
        }
        assert forall|k: T| #[trigger] Self::keys_of(n.right).contains(k) implies rank(m) < rank(k) by {
            assert(rank(n.val) < rank(k));
        }
        assert(rank(m) < rank(n.val));
        assert(!Self::keys_of(n.left).contains(n.val));
        assert(!Self::keys_of(n.right).contains(n.val));
        assert(Self::keys_of(t) == Self::keys_of(n.left).union(Self::keys_of(n.right)).insert(n.val));
        assert(Self::keys_of(mid) == Self::keys_of(rest).union(Self::keys_of(n.right)).insert(m));
        assert(Self::keys_of(mid) =~= Self::keys_of(t).remove(n.val));
    }

    /// Putting the smallest key of the right subtree in the root's place
    /// keeps the ordering and takes just the root's key out of the tree.
    proof fn lemma_took_from_right(n: TreeNode<T>, rest: AvlTreeNode<T>, m: T, h: i32)
        requires
            ranked::<T>(),
            Self::ordered(Some(Box::new(n))),
            Self::ordered(rest),
            Self::picks(DeleteValue::Min, n.right, m),
            Self::keys_of(rest) == Self::keys_of(n.right).remove(m),
        ensures
            ({
                let mid = Some(Box::new(TreeNode { val: m, height: h, left: n.left, right: rest }));
                Self::ordered(mid) && Self::keys_of(mid) == Self::keys_of(
                    Some(Box::new(n)),
                ).remove(n.val)
            }),
    {
        let t = Some(Box::new(n));
        let mid = Some(Box::new(TreeNode { val: m, height: h, left: n.left, right: rest }));
        assert(Self::keys_of(n.right).contains(m));
        assert forall|k: T| #[trigger] Self::keys_of(rest).contains(k) implies rank(m) < rank(k) by {
            assert(Self::keys_of(n.right).contains(k));
        }
        assert forall|k: T| #[trigger] Self::keys_of(n.left).contains(k) implies rank(k) < rank(m) by {
            assert(rank(k) < rank(n.val));
        }
        assert(rank(n.val) < rank(m));
        assert(!Self::keys_of(n.left).contains(n.val));
        assert(!Self::keys_of(n.right).contains(n.val));
        assert(Self::keys_of(t) == Self::keys_of(n.left).union(Self::keys_of(n.right)).insert(n.val));
        assert(Self::keys_of(mid) == Self::keys_of(n.left).union(Self::keys_of(rest)).insert(m));
        assert(Self::keys_of(mid) =~= Self::keys_of(t).remove(n.val));
    }

    /// Gives the root the largest key of its left subtree and detaches the
    /// node that held that key, which leaves with the root's former key.
    fn take_from_left(t: &mut AvlTreeNode<T>) -> (out: (InnerResult, AvlTreeNode<T>))
        requires
            ranked::<T>(),
            Self::avl(*old(t)),
            *old(t) matches Some(n) && n.left is Some && n.right is Some && Self::height_of(n.left)
                >= Self::height_of(n.right),
        ensures
            *old(t) matches Some(n) && Self::deleted(
                DeleteValue::Val(n.val),
                *old(t),
                *final(t),
                out.0,
                out.1,
            ),
        decreases *old(t), 0int,
    {
        proof {
            Self::lemma_height_bound(*old(t));
            Self::lemma_unfold(*old(t));
        }
        let ghost before = (*old(t))->0;
        let height = Self::cached_height(t);
        let root = t.as_mut().unwrap();
        let mut removed = Self::do_delete(&mut root.left, DeleteValue::Max).1;
        let ghost taken = removed->0.val;
        let node = removed.as_mut().unwrap();
        core::mem::swap(&mut root.val, &mut node.val);
        proof {
            Self::lemma_unfold(*t);
            Self::lemma_took_from_left(*before, (*t)->0.left, taken, (*t)->0.height);
        }
        Self::update_height(t);
        proof {
            Self::lemma_unfold(*t);
        }
        let res = if Self::cached_height(t) == height {
            InnerResult::Balanced
        } else {
            InnerResult::Unknown
        };
        (res, removed)
    }

    /// Gives the root the smallest key of its right subtree and detaches the
    /// node that held that key, which leaves with the root's former key.
    fn take_from_right(t: &mut AvlTreeNode<T>) -> (out: (InnerResult, AvlTreeNode<T>))
        requires
            ranked::<T>(),
            Self::avl(*old(t)),
            *old(t) matches Some(n) && n.left is Some && n.right is Some && Self::height_of(n.left)
                < Self::height_of(n.right),
        ensures
            *old(t) matches Some(n) && Self::deleted(
                DeleteValue::Val(n.val),
                *old(t),
                *final(t),
                out.0,
                out.1,
            ),
        decreases *old(t), 0int,
    {
        proof {
            Self::lemma_height_bound(*old(t));
            Self::lemma_unfold(*old(t));
        }
        let ghost before = (*old(t))->0;
        let height = Self::cached_height(t);
        let root = t.as_mut().unwrap();
        let mut removed = Self::do_delete(&mut root.right, DeleteValue::Min).1;
        let ghost taken = removed->0.val;
        let node = removed.as_mut().unwrap();
        core::mem::swap(&mut root.val, &mut node.val);
        proof {
            Self::lemma_unfold(*t);
            Self::lemma_took_from_right(*before, (*t)->0.right, taken, (*t)->0.height);
        }
        Self::update_height(t);
        proof {
            Self::lemma_unfold(*t);
        }
        let res = if Self::cached_height(t) == height {
            InnerResult::Balanced
        } else {
            InnerResult::Unknown
        };
        (res, removed)
    }

    /// Removes the key at the root of a tree whose root has two children: the
    /// root takes the nearest key of its taller side (the left one on a tie),
    /// and the node that held that key is detached in its place.
    fn replace_root(t: &mut AvlTreeNode<T>) -> (out: (InnerResult, AvlTreeNode<T>))
        requires
            ranked::<T>(),
            Self::avl(*old(t)),
            *old(t) matches Some(n) && n.left is Some && n.right is Some,
        ensures
            *old(t) matches Some(n) && Self::deleted(
                DeleteValue::Val(n.val),
                *old(t),
                *final(t),
                out.0,
                out.1,
            ),
        decreases *old(t), 1int,
    {
        proof {
            Self::lemma_unfold(*old(t));
        }
        let root = t.as_ref().unwrap();
        if Self::cached_height(&root.left) >= Self::cached_height(&root.right) {
            Self::take_from_left(t)
        } else {
            Self::take_from_right(t)
        }
    }

    /// Continues a deletion in the left subtree and restores the balance of
    /// the root afterwards.
    fn delete_left(t: &mut AvlTreeNode<T>, d: DeleteValue<T>) -> (out: (
        InnerResult,
        AvlTreeNode<T>,
    ))
        requires
            ranked::<T>(),
            Self::avl(*old(t)),
            *old(t) matches Some(n) && !d.hits(*n) && d.goes_left(*n),
        ensures
            Self::deleted(d, *old(t), *final(t), out.0, out.1),
        decreases *old(t), 1int,
    {
        proof {
            Self::lemma_height_bound(*old(t));
            Self::lemma_unfold(*old(t));
        }
        let ghost before = (*old(t))->0;
        let height = Self::cached_height(t);
        let (sub, removed) = Self::do_delete(&mut t.as_mut().unwrap().left, d);
        proof {
            Self::lemma_unfold(*t);
            let mid = (*t)->0;
            assert(mid.right == before.right && mid.val == before.val);
            if removed is Some {
                assert(Self::keys_of(*t) =~= Self::keys_of(*old(t)).remove(removed->0.val));
            }
        }
        match sub {
            InnerResult::Balanced => (InnerResult::Balanced, removed),
            _ => {
                let res = Self::shrunk_left(t, height, Ghost(Self::height_of(before.left)));
                (res, removed)
            },
        }
    }

    /// Continues a deletion in the right subtree and restores the balance of
    /// the root afterwards.
    fn delete_right(t: &mut AvlTreeNode<T>, d: DeleteValue<T>) -> (out: (
        InnerResult,
        AvlTreeNode<T>,
    ))
        requires
            ranked::<T>(),
            Self::avl(*old(t)),
            *old(t) matches Some(n) && !d.hits(*n) && !d.goes_left(*n),
        ensures
            Self::deleted(d, *old(t), *final(t), out.0, out.1),
        decreases *old(t), 1int,
    {
        proof {
            Self::lemma_height_bound(*old(t));
            Self::lemma_unfold(*old(t));
        }
        let ghost before = (*old(t))->0;
        let height = Self::cached_height(t);
        let (sub, removed) = Self::do_delete(&mut t.as_mut().unwrap().right, d);
        proof {
            Self::lemma_unfold(*t);
            let mid = (*t)->0;
            assert(mid.left == before.left && mid.val == before.val);
            if removed is Some {
                assert(Self::keys_of(*t) =~= Self::keys_of(*old(t)).remove(removed->0.val));
            }
        }
        match sub {
            InnerResult::Balanced => (InnerResult::Balanced, removed),
            _ => {
                let res = Self::shrunk_right(t, height, Ghost(Self::height_of(before.right)));
                (res, removed)
            },
        }
    }

    /// Recursive deletion with rebalancing on the way back up: finds the node
    /// that `d` is after, removes it, and lets every node on the way back
    /// restore its balance.
    fn do_delete(t: &mut AvlTreeNode<T>, d: DeleteValue<T>) -> (out: (
        InnerResult,
        AvlTreeNode<T>,
    ))
        requires
            ranked::<T>(),
            Self::avl(*old(t)),
            !(d is Val) ==> *old(t) is Some,
        ensures
            Self::deleted(d, *old(t), *final(t), out.0, out.1),
        decreases *old(t), 2int,
    {
        if t.is_none() {
            return (InnerResult::Balanced, None);
        }
        let ghost before = (*old(t))->0;
        proof {
            Self::lemma_height_bound(*old(t));
            Self::lemma_unfold(*old(t));
        }
        let height = Self::cached_height(t);
        let root = t.as_ref().unwrap();
        let (hit, below, two) = (
            d.eq(root),
            d.lt(root),
            root.left.is_some() && root.right.is_some(),
        );
        if hit {
            if two {
                Self::replace_root(t)
            } else {
                let removed = Self::detach_root(t);
                proof {
                    Self::lemma_unfold(removed);
                    assert(Self::keys_of(None) =~= Set::<T>::empty());
                    assert(Self::keys_of(*t) =~= Self::keys_of(*old(t)).remove(before.val));
                    if before.left is Some {
                        Self::lemma_unfold(before.left);
                    }
                    if before.right is Some {
                        Self::lemma_unfold(before.right);
                    }
                }
                let res = if Self::cached_height(t) == height {
                    InnerResult::Balanced
                } else {
                    InnerResult::Unknown
                };
                (res, removed)
            }
        } else if below {
            Self::delete_left(t, d)
        } else {
            Self::delete_right(t, d)
        }
    }

    /// Membership test by recursive descent.
    fn contains_node(t: &AvlTreeNode<T>, val: T) -> (found: bool)
        requires
            ranked::<T>(),
            Self::ordered(*t),
        ensures
            found == Self::keys_of(*t).contains(val),
        decreases *t,
    {
        match t {
            None => false,
            Some(node) => {
                if val == node.val {
                    true
                } else if val < node.val {
                    assert(!Self::keys_of(node.right).contains(val));
                    match &node.left {
                        None => {
                            assert(!Self::keys_of(None).contains(val));
                            false
                        },
                        Some(_) => Self::contains_node(&node.left, val),
                    }
                } else {
                    assert(!Self::keys_of(node.left).contains(val));
                    match &node.right {
                        None => {
                            assert(!Self::keys_of(None).contains(val));
                            false
                        },
                        Some(_) => Self::contains_node(&node.right, val),
                    }
                }
            },
        }
    }

    /// Appends the keys of `t` in order: left subtree, node, right subtree.
    fn inorder_to_list(t: &AvlTreeNode<T>, vec: &mut Vec<T>)
        ensures
            final(vec)@ == old(vec)@ + Self::in_order(*t),
        decreases *t,
    {
        if let Some(node) = t {
            Self::inorder_to_list(&node.left, vec);
            vec.push(node.val);
            Self::inorder_to_list(&node.right, vec);
            assert(vec@ =~= old(vec)@ + Self::in_order(*t));
        } else {
            assert(vec@ =~= old(vec)@ + Self::in_order(*t));
        }
    }

    /// Appends the keys of `t` in pre-order: node, left subtree, right subtree.
    fn preorder_to_list(t: &AvlTreeNode<T>, vec: &mut Vec<T>)
        ensures
            final(vec)@ == old(vec)@ + Self::pre_order(*t),
        decreases *t,
    {
        if let Some(node) = t {
            vec.push(node.val);
            Self::preorder_to_list(&node.left, vec);
            Self::preorder_to_list(&node.right, vec);
            assert(vec@ =~= old(vec)@ + Self::pre_order(*t));
        } else {
            assert(vec@ =~= old(vec)@ + Self::pre_order(*t));
        }
    }

    /// Appends the keys of `t` in post-order: left subtree, right subtree, node.
    fn postorder_to_list(t: &AvlTreeNode<T>, vec: &mut Vec<T>)
        ensures
            final(vec)@ == old(vec)@ + Self::post_order(*t),
        decreases *t,
    {
        if let Some(node) = t {
            Self::postorder_to_list(&node.left, vec);
            Self::postorder_to_list(&node.right, vec);
            vec.push(node.val);
            assert(vec@ =~= old(vec)@ + Self::post_order(*t));
        } else {
            assert(vec@ =~= old(vec)@ + Self::post_order(*t));
        }
    }
    /// Every key of `t` lies strictly between the bounds that are given.
    spec fn within(t: AvlTreeNode<T>, lo: Option<T>, hi: Option<T>) -> bool {
        forall|k: T| #[trigger]
            Self::keys_of(t).contains(k) ==> (lo matches Some(a) ==> rank(a) < rank(k)) && (hi matches Some(
                b,
            ) ==> rank(k) < rank(b))
    }

    /// Checks ordering, cached heights and balance of a whole tree, with the
    /// bounds that the ancestors impose on its keys.
    fn validate_within(t: &AvlTreeNode<T>, lo: Option<T>, hi: Option<T>) -> (ok: bool)
        requires
            ranked::<T>(),
        ensures
            ok == (Self::avl(*t) && Self::within(*t, lo, hi)),
        decreases *t,
    {
        match t {
            None => {
                assert(Self::keys_of(*t) =~= Set::<T>::empty());
                true
            },
            Some(node) => {
                proof {
                    Self::lemma_unfold(*t);
                }
                assert(Self::keys_of(*t).contains(node.val));
                if let Some(a) = lo {
                    if !(a < node.val) {
                        return false;
                    }
                }
                if let Some(b) = hi {
                    if !(node.val < b) {
                        return false;
                    }
                }
                if !Self::validate_within(&node.left, lo, Some(node.val)) {
                    proof {
                        if Self::avl(*t) && Self::within(*t, lo, hi) {
                            assert forall|k: T| #[trigger]
                                Self::keys_of(node.left).contains(k) implies (lo matches Some(a)
                                ==> rank(a) < rank(k)) && rank(k) < rank(node.val) by {
                                assert(Self::keys_of(*t).contains(k));
                            }
                            assert(false);
                        }
                    }
                    return false;
                }
                if !Self::validate_within(&node.right, Some(node.val), hi) {
                    proof {
                        if Self::avl(*t) && Self::within(*t, lo, hi) {
                            assert forall|k: T| #[trigger]
                                Self::keys_of(node.right).contains(k) implies (hi matches Some(b)
                                ==> rank(k) < rank(b)) && rank(node.val) < rank(k) by {
                                assert(Self::keys_of(*t).contains(k));
                            }
                            assert(false);
                        }
                    }
                    return false;
                }
                proof {
                    Self::lemma_height_bound(node.left);
                    Self::lemma_height_bound(node.right);
                    assert(Self::ordered(*t));
                    assert forall|k: T| #[trigger] Self::keys_of(*t).contains(k) implies (
                    lo matches Some(a) ==> rank(a) < rank(k)) && (hi matches Some(b) ==> rank(k) < rank(b)) by {
                        if Self::keys_of(node.left).contains(k) {
                        } else if Self::keys_of(node.right).contains(k) {
                        }
                    }
                }
                let l = Self::cached_height(&node.left);
                let r = Self::cached_height(&node.right);
                let tallest = if l >= r {
                    l
                } else {
                    r
                };
                if node.height != tallest + 1 {
                    return false;
                }
                if l - r > 1 || r - l > 1 {
                    return false;
                }
                true
            },
        }
    }

    /// Counts the nodes without children.
    fn count_leaves(t: &AvlTreeNode<T>) -> (n: u64)
        requires
            Self::leaves_of(*t) <= u64::MAX,
        ensures
            n == Self::leaves_of(*t),
        decreases *t,
    {
        match t {
            None => 0,
            Some(node) => {
                if node.left.is_none() && node.right.is_none() {
                    1
                } else {
                    Self::count_leaves(&node.left) + Self::count_leaves(&node.right)
                }
            },
        }
    }
}

impl<T: PartialOrd + Copy> TreeNode<T> {
    /// The two subtrees of a non-empty tree.
    pub closed spec fn children(t: AvlTreeNode<T>) -> Option<(AvlTreeNode<T>, AvlTreeNode<T>)> {
        match t {
            None => None,
            Some(n) => Some((n.left, n.right)),
        }
    }

    /// Height, size and balance of a tree in terms of its two subtrees.
    pub proof fn lemma_children(t: AvlTreeNode<T>)
        ensures
            Self::children(t) is None ==> Self::height_of(t) == 0 && Self::size_of(t) == 0,
            Self::children(t) matches Some((l, r)) ==> {
                &&& decreases_to!(t => l)
                &&& decreases_to!(t => r)
                &&& Self::size_of(t) == Self::size_of(l) + Self::size_of(r) + 1
                &&& Self::height_of(t) == 1 + (if Self::height_of(l) >= Self::height_of(r) {
                    Self::height_of(l)
                } else {
                    Self::height_of(r)
                })
                &&& Self::balanced(t) ==> Self::balanced(l) && Self::balanced(r) && Self::height_of(
                    l,
                ) <= Self::height_of(r) + 1 && Self::height_of(r) <= Self::height_of(l) + 1
            },
    {
    }

    /// Two ordered trees with the same keys have the same in-order sequence.
    pub proof fn lemma_in_order_unique(a: AvlTreeNode<T>, b: AvlTreeNode<T>)
        requires
            ranked::<T>(),
            Self::ordered(a),
            Self::ordered(b),
            Self::keys_of(a) == Self::keys_of(b),
        ensures
            Self::in_order(a) == Self::in_order(b),
    {
        Self::lemma_in_order(a);
        Self::lemma_in_order(b);
        lemma_increasing_unique(Self::in_order(a), Self::in_order(b));
    }

    /// Each traversal visits every node once, so it lists exactly the keys.
    pub proof fn lemma_traversals(t: AvlTreeNode<T>)
        ensures
            Self::in_order(t).to_set() == Self::keys_of(t),
            Self::pre_order(t).to_set() == Self::keys_of(t),
            Self::post_order(t).to_set() == Self::keys_of(t),
            Self::in_order(t).len() == Self::size_of(t),
            Self::pre_order(t).len() == Self::size_of(t),
            Self::post_order(t).len() == Self::size_of(t),
        decreases t,
    {
        match t {
            None => {
                assert(Self::in_order(t).to_set() =~= Self::keys_of(t));
                assert(Self::pre_order(t).to_set() =~= Self::keys_of(t));
                assert(Self::post_order(t).to_set() =~= Self::keys_of(t));
            },
            Some(n) => {
                Self::lemma_traversals(n.left);
                Self::lemma_traversals(n.right);
                assert forall|k: T|
                    Self::in_order(t).to_set().contains(k) == Self::keys_of(t).contains(k) by {
                    lemma_push_has(Self::in_order(n.left), n.val, k);
                    lemma_concat_has(Self::in_order(n.left).push(n.val), Self::in_order(n.right), k);
                    assert(Self::in_order(n.left).to_set().contains(k) == Self::in_order(
                        n.left,
                    ).contains(k));
                    assert(Self::in_order(n.right).to_set().contains(k) == Self::in_order(
                        n.right,
                    ).contains(k));
                }
                assert forall|k: T|
                    Self::pre_order(t).to_set().contains(k) == Self::keys_of(t).contains(k) by {
                    lemma_push_has(Seq::<T>::empty(), n.val, k);
                    assert(seq![n.val] =~= Seq::<T>::empty().push(n.val));
                    lemma_concat_has(seq![n.val], Self::pre_order(n.left), k);
                    lemma_concat_has(seq![n.val] + Self::pre_order(n.left), Self::pre_order(n.right), k);
                    assert(Self::pre_order(n.left).to_set().contains(k) == Self::pre_order(
                        n.left,
                    ).contains(k));
                    assert(Self::pre_order(n.right).to_set().contains(k) == Self::pre_order(
                        n.right,
                    ).contains(k));
                }
                assert forall|k: T|
                    Self::post_order(t).to_set().contains(k) == Self::keys_of(t).contains(k) by {
                    lemma_concat_has(Self::post_order(n.left), Self::post_order(n.right), k);
                    lemma_push_has(Self::post_order(n.left) + Self::post_order(n.right), n.val, k);
                    assert(Self::post_order(n.left).to_set().contains(k) == Self::post_order(
                        n.left,
                    ).contains(k));
                    assert(Self::post_order(n.right).to_set().contains(k) == Self::post_order(
                        n.right,
                    ).contains(k));
                }
                assert(Self::in_order(t).to_set() =~= Self::keys_of(t));
                assert(Self::pre_order(t).to_set() =~= Self::keys_of(t));
                assert(Self::post_order(t).to_set() =~= Self::keys_of(t));
            },
        }
    }
}

impl<T: PartialOrd + Copy> TreeNode<T> {
    /// The lines of the diagram of `t`, drawn below ancestors with the given
    /// guides: the node itself with its key and cached height, then its left
    /// and its right subtree; an absent tree is one line without an entry.
    pub closed spec fn rows_of(t: AvlTreeNode<T>, guides: Seq<bool>, branch: Branch) -> Seq<
        RowView<(T, i32)>,
    >
        decreases t,
    {
        match t {
            None => seq![(guides, branch, None)],
            Some(n) => seq![(guides, branch, Some((n.val, n.height)))] + Self::rows_of(
                n.left,
                guides.push(branch.guides_on()),
                Branch::Left,
            ) + Self::rows_of(n.right, guides.push(branch.guides_on()), Branch::Right),
        }
    }

    /// Appends the diagram rows of `t`, drawn below ancestors with the given guides.
    fn recursive_rows(
        t: &AvlTreeNode<T>,
        guides: &Vec<bool>,
        branch: Branch,
        out: &mut Vec<DiagramRow<(T, i32)>>,
    )
        ensures
            final(out)@.len() == old(out)@.len() + Self::rows_of(*t, guides@, branch).len(),
            forall|i: int| 0 <= i < old(out)@.len() ==> final(out)@[i] == old(out)@[i],
            forall|j: int|
                0 <= j < Self::rows_of(*t, guides@, branch).len() ==> (#[trigger] final(out)@[old(
                    out,
                )@.len() + j])@ == Self::rows_of(*t, guides@, branch)[j],
        decreases *t,
    {
        let own = guides.clone();
        assert(own@ =~= guides@);
        match t {
            None => {
                out.push(DiagramRow { guides: own, branch, entry: None });
            },
            Some(node) => {
                out.push(DiagramRow { guides: own, branch, entry: Some((node.val, node.height)) });
                let mut below = guides.clone();
                assert(below@ =~= guides@);
                below.push(branch.is_guide());
                let ghost start = out@.len();
                Self::recursive_rows(&node.left, &below, Branch::Left, out);
                let ghost middle = out@.len();
                Self::recursive_rows(&node.right, &below, Branch::Right, out);
                proof {
                    let lines = Self::rows_of(*t, guides@, branch);
                    let l = Self::rows_of(node.left, below@, Branch::Left);
                    let r = Self::rows_of(node.right, below@, Branch::Right);
                    assert(lines == seq![(guides@, branch, Some((node.val, node.height)))] + l + r);
                    assert forall|j: int| 0 <= j < lines.len() implies (#[trigger] out@[old(
                        out,
                    )@.len() + j])@ == lines[j] by {
                        if j == 0 {
                        } else if j < 1 + l.len() {
                            assert(out@[start + (j - 1)]@ == l[j - 1]);
                        } else {
                            assert(out@[middle + (j - 1 - l.len())]@ == r[j - 1 - l.len()]);
                        }
                    }
                }
            },
        }
    }
}

impl<T: PartialOrd + Copy> TreeNode<T> {
    /// A second tree with the same nodes.
    fn duplicate(t: &AvlTreeNode<T>) -> (twin: AvlTreeNode<T>)
        ensures
            twin == *t,
        decreases *t,
    {
        match t {
            None => None,
            Some(node) => {
                let left = Self::duplicate(&node.left);
                let right = Self::duplicate(&node.right);
                Some(Box::new(TreeNode { val: node.val, height: node.height, left, right }))
            },
        }
    }
}

impl<T: PartialOrd + Copy> Clone for TreeNode<T> {
    /// A copy of the node and of everything below it.
    fn clone(&self) -> (twin: Self)
        ensures
            twin == *self,
    {
        TreeNode {
            val: self.val,
            height: self.height,
            left: TreeNode::duplicate(&self.left),
            right: TreeNode::duplicate(&self.right),
        }
    }
}

/// The tree as its root and its two subtrees: what a caller needs to follow an
/// operation node by node.
impl<T: PartialOrd + Copy> TreeNode<T> {
    /// The key at the root; none for the empty tree.
    pub closed spec fn root_key(t: AvlTreeNode<T>) -> Option<T> {
        match t {
            None => None,
            Some(n) => Some(n.val),
        }
    }

    /// What is left of `t` without its largest key; the empty tree stays empty.
    pub closed spec fn without_max(t: AvlTreeNode<T>) -> AvlTreeNode<T> {
        Self::without(t, DeleteValue::Max)
    }

    /// What is left of `t` without its smallest key; the empty tree stays empty.
    pub closed spec fn without_min(t: AvlTreeNode<T>) -> AvlTreeNode<T> {
        Self::without(t, DeleteValue::Min)
    }

    /// What `join` puts together, the accessors take apart.
    pub proof fn lemma_join(l: AvlTreeNode<T>, v: T, r: AvlTreeNode<T>)
        ensures
            Self::join(l, v, r) is Some,
            Self::root_key(Self::join(l, v, r)) == Some(v),
            Self::children(Self::join(l, v, r)) == Some((l, r)),
            Self::height_of(l) < i32::MAX && Self::height_of(r) < i32::MAX ==> Self::stored(
                Self::join(l, v, r),
            ) == Self::height_of(Self::join(l, v, r)),
            Self::leaf(v) == Self::join(None, v, None),
    {
    }

    /// The empty tree has no root, no key and no level, and is valid.
    pub proof fn lemma_none()
        ensures
            Self::root_key(None) is None,
            Self::children(None) is None,
            Self::keys_of(None) == Set::<T>::empty(),
            Self::avl(None),
            Self::height_of(None) == 0,
            Self::stored(None) == 0,
            Self::size_of(None) == 0,
            Self::leaves_of(None) == 0,
            Self::in_order(None) == Seq::<T>::empty(),
            Self::pre_order(None) == Seq::<T>::empty(),
            Self::post_order(None) == Seq::<T>::empty(),
            Self::without_max(None) is None,
            Self::without_min(None) is None,
    {
        assert(Self::keys_of(None) =~= Set::<T>::empty());
    }

    /// Keys, measures, traversals and invariants of a tree in terms of its
    /// root and its two subtrees. A tree whose cached heights are right is
    /// the `join` of its root key and its subtrees.
    pub proof fn lemma_root(t: AvlTreeNode<T>)
        requires
            t is Some,
        ensures
            Self::root_key(t) matches Some(k) && (Self::children(t) matches Some((l, r)) && ({
                let taller = if Self::height_of(l) >= Self::height_of(r) {
                    Self::height_of(l)
                } else {
                    Self::height_of(r)
                };
                &&& Self::keys_of(t) == Self::keys_of(l).union(Self::keys_of(r)).insert(k)
                &&& Self::height_of(t) == 1 + taller
                &&& Self::size_of(t) == Self::size_of(l) + Self::size_of(r) + 1
                &&& Self::leaves_of(t) == if l is None && r is None {
                    1
                } else {
                    Self::leaves_of(l) + Self::leaves_of(r)
                }
                &&& Self::in_order(t) == Self::in_order(l).push(k) + Self::in_order(r)
                &&& Self::pre_order(t) == seq![k] + Self::pre_order(l) + Self::pre_order(r)
                &&& Self::post_order(t) == (Self::post_order(l) + Self::post_order(r)).push(k)
                &&& Self::max_key(t) == if r is None {
                    k
                } else {
                    Self::max_key(r)
                }
                &&& Self::min_key(t) == if l is None {
                    k
                } else {
                    Self::min_key(l)
                }
                &&& Self::ordered(t) == (Self::ordered(l) && Self::ordered(r) && (forall|j: T| #[trigger]
                    Self::keys_of(l).contains(j) ==> rank(j) < rank(k)) && (forall|j: T| #[trigger]
                    Self::keys_of(r).contains(j) ==> rank(k) < rank(j)))
                &&& Self::cached(t) == (Self::cached(l) && Self::cached(r) && Self::stored(t) == 1
                    + taller)
                &&& Self::balanced(t) == (Self::balanced(l) && Self::balanced(r) && Self::height_of(
                    l,
                ) <= Self::height_of(r) + 1 && Self::height_of(r) <= Self::height_of(l) + 1)
                &&& Self::cached(t) ==> t == Self::join(l, k, r)
            })),
    {
        let n = t->0;
        let (l, r) = (n.left, n.right);
        let k = n.val;
        assert(Self::keys_of(t) == Self::keys_of(l).union(Self::keys_of(r)).insert(k));
        assert(Self::in_order(t) == Self::in_order(l).push(k) + Self::in_order(r));
        assert(Self::pre_order(t) == seq![k] + Self::pre_order(l) + Self::pre_order(r));
        assert(Self::post_order(t) == (Self::post_order(l) + Self::post_order(r)).push(k));
        assert(Self::ordered(t) == (Self::ordered(l) && Self::ordered(r) && (forall|j: T| #[trigger]
            Self::keys_of(l).contains(j) ==> rank(j) < rank(k)) && (forall|j: T| #[trigger]
            Self::keys_of(r).contains(j) ==> rank(k) < rank(j))));
        if Self::cached(t) {
            assert(n.height == Self::height_of(t));
            assert(t == Self::join(l, k, r));
        }
    }

    /// The diagram of a tree: its own line, then the rows of its subtrees
    /// with one more guide.
    pub proof fn lemma_rows(t: AvlTreeNode<T>, guides: Seq<bool>, branch: Branch)
        ensures
            t is None ==> Self::rows_of(t, guides, branch) == seq![
                (guides, branch, None::<(T, i32)>),
            ],
            t is Some ==> (Self::root_key(t) matches Some(k) && (Self::children(t) matches Some(
                (l, r),
            ) && Self::rows_of(t, guides, branch) == seq![
                (guides, branch, Some((k, Self::stored(t) as i32))),
            ] + Self::rows_of(l, guides.push(branch.guides_on()), Branch::Left) + Self::rows_of(
                r,
                guides.push(branch.guides_on()),
                Branch::Right,
            ))),
    {
    }

    /// Rebalancing: where the left side is two levels taller, its root is
    /// lifted by a single rotation if its left subtree is at least as tall as
    /// its right one, else its right child by a double rotation; mirrored
    /// where the right side is two levels taller; otherwise a plain `join`.
    pub proof fn lemma_rebalance(l: AvlTreeNode<T>, v: T, r: AvlTreeNode<T>)
        ensures
            Self::height_of(l) == Self::height_of(r) + 2 ==> (Self::root_key(l) matches Some(xk) && (
            Self::children(l) matches Some((xl, xr)) && (if Self::height_of(xl) >= Self::height_of(
                xr,
            ) {
                Self::rebalance(l, v, r) == Self::join(xl, xk, Self::join(xr, v, r))
            } else {
                Self::root_key(xr) matches Some(zk) && (Self::children(xr) matches Some((zl, zr))
                    && Self::rebalance(l, v, r) == Self::join(
                    Self::join(xl, xk, zl),
                    zk,
                    Self::join(zr, v, r),
                ))
            }))),
            Self::height_of(r) == Self::height_of(l) + 2 ==> (Self::root_key(r) matches Some(xk) && (
            Self::children(r) matches Some((xl, xr)) && (if Self::height_of(xr) >= Self::height_of(
                xl,
            ) {
                Self::rebalance(l, v, r) == Self::join(Self::join(l, v, xl), xk, xr)
            } else {
                Self::root_key(xl) matches Some(zk) && (Self::children(xl) matches Some((zl, zr))
                    && Self::rebalance(l, v, r) == Self::join(
                    Self::join(l, v, zl),
                    zk,
                    Self::join(zr, xk, xr),
                ))
            }))),
            Self::height_of(l) != Self::height_of(r) + 2 && Self::height_of(r) != Self::height_of(l)
                + 2 ==> Self::rebalance(l, v, r) == Self::join(l, v, r),
    {
        assert(Self::height_of(None) == 0);
        if l is Some {
            Self::lemma_unfold(l);
        }
        if r is Some {
            Self::lemma_unfold(r);
        }
    }

    /// Insertion, one level at a time: the key becomes a single node where
    /// the search for it ends, and every node on the way is rebalanced.
    pub proof fn lemma_with_key(t: AvlTreeNode<T>, v: T)
        ensures
            t is None ==> Self::with_key(t, v) == Self::join(None, v, None),
            t is Some ==> (Self::root_key(t) matches Some(k) && (Self::children(t) matches Some(
                (l, r),
            ) && Self::with_key(t, v) == (if v == k {
                t
            } else if rank(v) < rank(k) {
                Self::rebalance(Self::with_key(l, v), k, r)
            } else {
                Self::rebalance(l, k, Self::with_key(r, v))
            }))),
    {
    }

    /// Deletion, one level at a time. A root with at most one child gives way
    /// to that child. A root with two children takes the largest key of its
    /// left subtree if that subtree is at least as tall as the right one,
    /// else the smallest key of its right subtree, and that key is deleted
    /// where it came from. Every node on the way is rebalanced.
    pub proof fn lemma_without_key(t: AvlTreeNode<T>, v: T)
        ensures
            t is None ==> Self::without_key(t, v) is None,
            t is Some ==> (Self::root_key(t) matches Some(k) && (Self::children(t) matches Some(
                (l, r),
            ) && Self::without_key(t, v) == (if v == k {
                if l is Some && r is Some {
                    if Self::height_of(l) >= Self::height_of(r) {
                        Self::join(Self::without_max(l), Self::max_key(l), r)
                    } else {
                        Self::join(l, Self::min_key(r), Self::without_min(r))
                    }
                } else if l is Some {
                    l
                } else {
                    r
                }
            } else if rank(v) < rank(k) {
                Self::rebalance(Self::without_key(l, v), k, r)
            } else {
                Self::rebalance(l, k, Self::without_key(r, v))
            }))),
    {
    }

    /// Deleting the largest or the smallest key, one level at a time: the
    /// node at the end of the right or left edge gives way to its only
    /// child, and every node above it is rebalanced.
    pub proof fn lemma_without_end(t: AvlTreeNode<T>)
        requires
            t is Some,
        ensures
            Self::root_key(t) matches Some(k) && (Self::children(t) matches Some((l, r)) && ({
                &&& Self::without_max(t) == if r is None {
                    l
                } else {
                    Self::rebalance(l, k, Self::without_max(r))
                }
                &&& Self::without_min(t) == if l is None {
                    r
                } else {
                    Self::rebalance(Self::without_min(l), k, r)
                }
            })),
    {
    }

    /// A tree of `h` levels has at most `2^h - 1` nodes.
    pub proof fn lemma_size_below_height(t: AvlTreeNode<T>)
        ensures
            Self::size_of(t) + 1 <= pow2(Self::height_of(t)),
        decreases t,
    {
        lemma2_to64();
        match t {
            None => {},
            Some(n) => {
                Self::lemma_size_below_height(n.left);
                Self::lemma_size_below_height(n.right);
                let h = Self::height_of(t);
                let hl = Self::height_of(n.left);
                let hr = Self::height_of(n.right);
                lemma_pow2_unfold(h);
                if hl < h - 1 {
                    lemma_pow2_strictly_increases(hl, (h - 1) as nat);
                }
                if hr < h - 1 {
                    lemma_pow2_strictly_increases(hr, (h - 1) as nat);
                }
            },
        }
    }
}

/// The operations of the AVL tree.
pub trait AvlTree<T: PartialOrd>: Sized {
    /// The set of keys held by the tree.
    spec fn keys(&self) -> Set<T>;

    /// The tree is a search tree, every cached height is the true height of
    /// its subtree, and sibling subtrees differ in height by at most one.
    spec fn is_avl(&self) -> bool;

    /// The number of nodes on the longest path from the root down.
    spec fn tree_height(&self) -> nat;

    /// The number of nodes without children.
    spec fn leaf_count(&self) -> nat;

    /// The keys, left subtree first, then the node, then the right subtree.
    spec fn in_order_seq(&self) -> Seq<T>;

    /// The keys, node first, then the left subtree, then the right subtree.
    spec fn pre_order_seq(&self) -> Seq<T>;

    /// The keys, left subtree first, then the right subtree, then the node.
    spec fn post_order_seq(&self) -> Seq<T>;

    /// The lines of the tree's diagram: each node with its key and cached
    /// height, followed by its left and its right subtree.
    spec fn diagram(&self) -> Seq<RowView<(T, i32)>>;

    /// The tree without any key.
    spec fn empty() -> Self;

    /// The tree that inserting `val` gives: the key goes where the search for
    /// it ends, and on the way back up every node whose subtrees have come to
    /// differ by two levels is rebalanced by a single or a double rotation.
    spec fn with_key(&self, val: T) -> Self;

    /// The tree that deleting `val` leaves. A node with at most one child
    /// gives way to that child; a node with two children takes the nearest
    /// key of its taller side, the left one on a tie, and that key's node is
    /// removed instead. Every node on the way back up is rebalanced.
    spec fn without_key(&self, val: T) -> Self;

    /// A tree of the single key `val`.
    fn new(val: T) -> (tree: Self)
        ensures
            tree == Self::empty().with_key(val),
            tree.is_avl(),
            tree.keys() == Set::<T>::empty().insert(val),
            tree.tree_height() == 1,
    ;

    /// The height of the tree, read from the root's cache.
    fn height(&self) -> (h: i32)
        requires
            self.is_avl(),
        ensures
            h == self.tree_height(),
    ;

    /// Adds `val`. A key that is already present leaves the tree untouched.
    fn insert_node(&mut self, val: T)
        requires
            ranked::<T>(),
            old(self).is_avl(),
        ensures
            final(self).is_avl(),
            final(self).keys() == old(self).keys().insert(val),
            old(self).keys().contains(val) ==> *final(self) == *old(self),
            old(self).tree_height() <= final(self).tree_height() <= old(self).tree_height() + 1,
            *final(self) == old(self).with_key(val),
    ;

    /// Removes `val` and hands back the node that held it as a tree of that
    /// one key; an absent key leaves the tree untouched and yields the empty tree.
    fn delete_node(&mut self, val: T) -> (removed: Self)
        requires
            ranked::<T>(),
            old(self).is_avl(),
        ensures
            final(self).is_avl(),
            removed.is_avl(),
            old(self).keys().contains(val) ==> final(self).keys() == old(self).keys().remove(val)
                && removed.keys() == Set::<T>::empty().insert(val),
            !old(self).keys().contains(val) ==> *final(self) == *old(self) && removed.keys()
                == Set::<T>::empty(),
            final(self).tree_height() <= old(self).tree_height() <= final(self).tree_height() + 1,
            *final(self) == old(self).without_key(val),
    ;

    /// Checks every invariant of the tree at run time.
    fn validate_tree(&self) -> (ok: bool)
        requires
            ranked::<T>(),
        ensures
            ok == self.is_avl(),
    ;

    /// Whether the tree holds no key.
    fn is_tree_empty(&self) -> (empty: bool)
        ensures
            empty == (self.keys() == Set::<T>::empty()),
    ;

    /// The height of the tree; zero for the empty tree.
    fn height_of_tree(&self) -> (h: i32)
        requires
            self.is_avl(),
        ensures
            h == self.tree_height(),
            self.keys() == Set::<T>::empty() <==> h == 0,
    ;

    /// The number of leaves, cut to 32 bits.
    fn number_of_leaves(&self) -> (n: i32)
        requires
            ranked::<T>(),
            self.is_avl(),
        ensures
            n == self.leaf_count() as i32,
            self.leaf_count() <= i32::MAX ==> n == self.leaf_count(),
    ;

    /// The keys in ascending order.
    fn in_order_traverse(&mut self) -> (list: Vec<T>)
        ensures
            *final(self) == *old(self),
            list@ == old(self).in_order_seq(),
            ranked::<T>() && old(self).is_avl() ==> list@.to_set() == old(self).keys()
                && list@.no_duplicates() && old(self).keys().finite() && list@.len() == old(
                self,
            ).keys().len(),
    ;

    /// The keys in pre-order.
    fn pre_order_traverse(&mut self) -> (list: Vec<T>)
        ensures
            *final(self) == *old(self),
            list@ == old(self).pre_order_seq(),
            list@.to_set() == old(self).keys(),
    ;

    /// The keys in post-order.
    fn post_order_traverse(&mut self) -> (list: Vec<T>)
        ensures
            *final(self) == *old(self),
            list@ == old(self).post_order_seq(),
            list@.to_set() == old(self).keys(),
    ;

    /// The rows from which the tree can be drawn, top to bottom.
    fn diagram_rows(&self) -> (rows: Vec<DiagramRow<(T, i32)>>)
        ensures
            depicts(rows@, self.diagram()),
    ;

    /// Whether `val` is a key of the tree.
    fn exist_or_not(&self, val: T) -> (found: bool)
        requires
            ranked::<T>(),
            self.is_avl(),
        ensures
            found == self.keys().contains(val),
    ;

    /// The empty tree.
    fn generate_empty_tree() -> (tree: Self)
        ensures
            tree == Self::empty(),
            tree.is_avl(),
            tree.keys() == Set::<T>::empty(),
            tree.tree_height() == 0,
    ;

    /// Replaces the key `old_key` by `new_key`, or says why it did not.
    fn update_node(&mut self, old_key: T, new_key: T) -> (done: Result<(), UpdateError>)
        requires
            ranked::<T>(),
            old(self).is_avl(),
        ensures
            final(self).is_avl(),
            done == update_verdict(old(self).keys(), old_key, new_key),
            done is Ok ==> final(self).keys() == old(self).keys().remove(old_key).insert(new_key)
                && *final(self) == old(self).without_key(old_key).with_key(new_key),
            done is Err ==> *final(self) == *old(self),
    ;

    /// The number of keys, cut to 32 bits.
    fn total_number_elements(&mut self) -> (n: i32)
        requires
            ranked::<T>(),
            old(self).is_avl(),
        ensures
            *final(self) == *old(self),
            old(self).keys().finite(),
            n == old(self).keys().len() as i32,
            old(self).keys().len() <= i32::MAX ==> n == old(self).keys().len(),
    ;
}

impl<T: PartialOrd + Copy> AvlTree<T> for AvlTreeNode<T> {
    open spec fn keys(&self) -> Set<T> {
        TreeNode::keys_of(*self)
    }

    open spec fn is_avl(&self) -> bool {
        TreeNode::avl(*self)
    }

    open spec fn tree_height(&self) -> nat {
        TreeNode::height_of(*self)
    }

    open spec fn leaf_count(&self) -> nat {
        TreeNode::leaves_of(*self)
    }

    open spec fn in_order_seq(&self) -> Seq<T> {
        TreeNode::in_order(*self)
    }

    open spec fn pre_order_seq(&self) -> Seq<T> {
        TreeNode::pre_order(*self)
    }

    open spec fn post_order_seq(&self) -> Seq<T> {
        TreeNode::post_order(*self)
    }

    open spec fn diagram(&self) -> Seq<RowView<(T, i32)>> {
        TreeNode::rows_of(*self, Seq::empty(), Branch::Root)
    }

    open spec fn empty() -> Self {
        None
    }

    open spec fn with_key(&self, val: T) -> Self {
        TreeNode::with_key(*self, val)
    }

    open spec fn without_key(&self, val: T) -> Self {
        TreeNode::without_key(*self, val)
    }

    fn new(val: T) -> (tree: Self) {
        let tree = Some(Box::new(TreeNode { val, height: 1, left: None, right: None }));
        proof {
            TreeNode::lemma_leaf(val);
            assert(TreeNode::<T>::height_of(None) == 0);
            assert(tree == TreeNode::leaf(val));
        }
        tree
    }

    fn height(&self) -> (h: i32) {
        match self {
            None => 0,
            Some(node) => node.height,
        }
    }

    fn insert_node(&mut self, val: T) {
        TreeNode::do_insert(self, val);
    }

    fn delete_node(&mut self, val: T) -> (removed: Self)
        ensures
            removed is Some <==> old(self).keys().contains(val),
            removed is Some ==> removed == TreeNode::leaf(val),
    {
        let (_, removed) = TreeNode::do_delete(self, DeleteValue::Val(val));
        proof {
            if removed is Some {
                TreeNode::lemma_leaf(val);
            } else {
                assert(TreeNode::keys_of(removed) =~= Set::<T>::empty());
            }
        }
        removed
    }

    fn validate_tree(&self) -> (ok: bool) {
        TreeNode::validate_within(self, None, None)
    }

    fn is_tree_empty(&self) -> (empty: bool) {
        match self {
            None => {
                assert(TreeNode::keys_of(*self) =~= Set::<T>::empty());
                true
            },
            Some(node) => {
                assert(TreeNode::keys_of(*self).contains(node.val));
                false
            },
        }
    }

    fn height_of_tree(&self) -> (h: i32) {
        if self.is_none() {
            assert(TreeNode::keys_of(*self) =~= Set::<T>::empty());
            return 0;
        }
        proof {
            TreeNode::lemma_unfold(*self);
            assert(TreeNode::keys_of(*self).contains(self->0.val));
        }
        TreeNode::cached_height(self)
    }

    fn number_of_leaves(&self) -> (n: i32) {
        proof {
            TreeNode::lemma_height_bound(*self);
        }
        let count = TreeNode::count_leaves(self);
        #[verifier::truncate]
        (count as i32)
    }

    fn in_order_traverse(&mut self) -> (list: Vec<T>)
        ensures
            ranked::<T>() && old(self).is_avl() ==> strictly_increasing(list@),
    {
        let mut inorder_list = Vec::new();
        TreeNode::inorder_to_list(self, &mut inorder_list);
        proof {
            assert(inorder_list@ =~= TreeNode::in_order(*self));
            TreeNode::lemma_traversals(*self);
            if ranked::<T>() && TreeNode::avl(*self) {
                TreeNode::lemma_in_order(*self);
                inorder_list@.unique_seq_to_set();
                vstd::seq_lib::seq_to_set_is_finite(inorder_list@);
            }
        }
        inorder_list
    }

    fn pre_order_traverse(&mut self) -> (list: Vec<T>) {
        let mut preorder_list = Vec::new();
        TreeNode::preorder_to_list(self, &mut preorder_list);
        proof {
            assert(preorder_list@ =~= TreeNode::pre_order(*self));
            TreeNode::lemma_traversals(*self);
        }
        preorder_list
    }

    fn post_order_traverse(&mut self) -> (list: Vec<T>) {
        let mut postorder_list = Vec::new();
        TreeNode::postorder_to_list(self, &mut postorder_list);
        proof {
            assert(postorder_list@ =~= TreeNode::post_order(*self));
            TreeNode::lemma_traversals(*self);
        }
        postorder_list
    }

    fn diagram_rows(&self) -> (rows: Vec<DiagramRow<(T, i32)>>) {
        let mut rows = Vec::new();
        let guides: Vec<bool> = Vec::new();
        TreeNode::recursive_rows(self, &guides, Branch::Root, &mut rows);
        proof {
            assert(guides@ =~= Seq::<bool>::empty());
            assert forall|i: int| 0 <= i < rows@.len() implies (#[trigger] rows@[i])@
                == self.diagram()[i] by {
                assert(rows@[0 + i]@ == self.diagram()[i]);
            }
        }
        rows
    }

    fn exist_or_not(&self, val: T) -> (found: bool) {
        match self {
            None => {
                assert(!TreeNode::<T>::keys_of(None).contains(val));
                false
            },
            Some(_) => TreeNode::contains_node(self, val),
        }
    }

    fn generate_empty_tree() -> (tree: Self) {
        assert(TreeNode::<T>::keys_of(None) =~= Set::<T>::empty());
        None
    }

    fn update_node(&mut self, old_key: T, new_key: T) -> (done: Result<(), UpdateError>) {
        match self {
            None => {
                assert(TreeNode::keys_of(*self) =~= Set::<T>::empty());
                Err(UpdateError::EmptyTree)
            },
            Some(node) => {
                assert(TreeNode::keys_of(*self).contains(node.val));
                if !self.exist_or_not(old_key) {
                    Err(UpdateError::Missing)
                } else if old_key == new_key {
                    Err(UpdateError::Unchanged)
                } else if self.exist_or_not(new_key) {
                    Err(UpdateError::Occupied)
                } else {
                    TreeNode::do_delete(self, DeleteValue::Val(old_key));
                    self.insert_node(new_key);
                    Ok(())
                }
            },
        }
    }

    fn total_number_elements(&mut self) -> (n: i32) {
        let res_vec = self.in_order_traverse();
        proof {
            TreeNode::lemma_in_order(*self);
            res_vec@.unique_seq_to_set();
            vstd::seq_lib::seq_to_set_is_finite(res_vec@);
        }
        #[verifier::truncate]
        (res_vec.len() as i32)
    }
}

} // verus!
