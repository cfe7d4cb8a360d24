//! Unbalanced binary search tree, kept as a baseline for the balanced engines.

use core::cmp::Ordering;
use vstd::prelude::*;
use vstd::std_specs::cmp::PartialEqSpec;
use vstd::std_specs::cmp::PartialOrdSpec;

verus! {

/// `a` sorts strictly before `b`.
pub open spec fn key_lt<T: PartialOrd>(a: T, b: T) -> bool {
    a.partial_cmp_spec(&b) == Some(Ordering::Less)
}

/// The comparison operators of `T` follow their specification, and that
/// specification is a strict total order whose equality is plain equality.
pub open spec fn strict_total_order<T: PartialOrd>() -> bool {
    &&& T::obeys_eq_spec()
    &&& T::obeys_partial_cmp_spec()
    &&& forall|a: T, b: T| #[trigger] a.eq_spec(&b) <==> a == b
    &&& forall|a: T, b: T|
        {
            let c = #[trigger] a.partial_cmp_spec(&b);
            &&& c is Some
            &&& c == Some(Ordering::Equal) <==> a == b
            &&& c == Some(Ordering::Greater) <==> key_lt(b, a)
        }
    &&& forall|a: T, b: T, c: T| #[trigger] key_lt(a, b) && #[trigger] key_lt(b, c) ==> key_lt(a, c)
}

/// The built-in integer types are strictly and totally ordered, so a tree may
/// be keyed by any of them.
pub proof fn lemma_integers_are_ordered()
    ensures
        strict_total_order::<u8>(),
        strict_total_order::<u16>(),
        strict_total_order::<u32>(),
        strict_total_order::<u64>(),
        strict_total_order::<usize>(),
        strict_total_order::<i8>(),
        strict_total_order::<i16>(),
        strict_total_order::<i32>(),
        strict_total_order::<i64>(),
        strict_total_order::<isize>(),
{
}

/// Keys that are ranked are strictly and totally ordered, so a tree may be
/// keyed by any ranked type.
pub proof fn lemma_ranked_is_ordered<T: PartialOrd>()
    requires
        crate::keys::ranked::<T>(),
    ensures
        strict_total_order::<T>(),
{
    assert forall|a: T, b: T| key_lt(a, b) <==> crate::keys::rank(a) < crate::keys::rank(b) by {
        crate::keys::lemma_compare(a, b);
    }
    assert forall|a: T, b: T|
        {
            let c = #[trigger] a.partial_cmp_spec(&b);
            &&& c is Some
            &&& c == Some(Ordering::Equal) <==> a == b
            &&& c == Some(Ordering::Greater) <==> key_lt(b, a)
        } by {
        crate::keys::lemma_compare(a, b);
        crate::keys::lemma_compare(b, a);
    }
}

/// A tree is an optional owning pointer to its root node; `None` is the empty tree.
pub type Node<T> = Option<Box<Bstree<T>>>;

/// One node of the tree: a key and two exclusively owned subtrees.
#[derive(Debug)]
pub struct Bstree<T> {
    val: T,
    left: Node<T>,
    right: Node<T>,
}

impl<T: Copy + PartialOrd> Bstree<T> {
    /// The keys stored in a tree.
    pub closed spec fn keys_of(node: Node<T>) -> Set<T>
        decreases node,
    {
        match node {
            None => Set::empty(),
            Some(n) => Self::keys_of(n.left).union(Self::keys_of(n.right)).insert(n.val),
        }
    }

    /// Search-tree ordering: at every node, all keys to the left sort before
    /// the node's key and all keys to the right sort after it.
    pub closed spec fn ordered(node: Node<T>) -> bool
        decreases node,
    {
        match node {
            None => true,
            Some(n) => {
                &&& Self::ordered(n.left)
                &&& Self::ordered(n.right)
                &&& forall|k: T| #[trigger] Self::keys_of(n.left).contains(k) ==> key_lt(k, n.val)
                &&& forall|k: T| #[trigger] Self::keys_of(n.right).contains(k) ==> key_lt(n.val, k)
            },
        }
    }

    /// The tree that inserting `val` gives: the key becomes a new leaf where
    /// the search for it ends; a key that the tree holds leaves it as it is.
    pub closed spec fn placed(node: Node<T>, val: T) -> Node<T>
        decreases node,
    {
        match node {
            None => Some(Box::new(Bstree { val, left: None, right: None })),
            Some(n) => if key_lt(val, n.val) {
                Some(Box::new(Bstree { val: n.val, left: Self::placed(n.left, val), right: n.right }))
            } else if key_lt(n.val, val) {
                Some(Box::new(Bstree { val: n.val, left: n.left, right: Self::placed(n.right, val) }))
            } else {
                node
            },
        }
    }

    /// At an ordered node, a key that sorts before the node's key can only be
    /// on the left, one that sorts after it only on the right.
    proof fn lemma_side(n: Bstree<T>, val: T)
        requires
            strict_total_order::<T>(),
            Self::ordered(Some(Box::new(n))),
        ensures
            key_lt(val, n.val) ==> (Self::keys_of(Some(Box::new(n))).contains(val)
                <==> Self::keys_of(n.left).contains(val)),
            key_lt(n.val, val) ==> (Self::keys_of(Some(Box::new(n))).contains(val)
                <==> Self::keys_of(n.right).contains(val)),
            !key_lt(val, n.val) && !key_lt(n.val, val) ==> val == n.val,
    {
        let c = val.partial_cmp_spec(&n.val);
        assert(c is Some);
        if key_lt(val, n.val) {
            assert(!key_lt(n.val, val)) by {
                assert(c != Some(Ordering::Greater));
            }
            assert(!Self::keys_of(n.right).contains(val));
        }
        if key_lt(n.val, val) {
            assert(c == Some(Ordering::Greater));
            assert(!Self::keys_of(n.left).contains(val));
        }
        if !key_lt(val, n.val) && !key_lt(n.val, val) {
            assert(c != Some(Ordering::Greater));
            assert(c == Some(Ordering::Equal));
        }
    }

    /// Recursive insertion: the key becomes a new leaf where the search for it ends.
    fn insert(node: &mut Node<T>, val: T)
        requires
            strict_total_order::<T>(),
            Self::ordered(*old(node)),
        ensures
            Self::ordered(*final(node)),
            Self::keys_of(*final(node)) == Self::keys_of(*old(node)).insert(val),
            Self::keys_of(*old(node)).contains(val) ==> *final(node) == *old(node),
            *final(node) == Self::placed(*old(node), val),
        decreases *old(node),
    {
        match node {
            None => {
                *node = Some(Box::new(Bstree { val, left: None, right: None }));
                assert(Self::keys_of(None) =~= Set::<T>::empty());
                assert(Self::keys_of(*node) =~= Set::<T>::empty().insert(val));
            },
            Some(n) => {
                proof {
                    Self::lemma_side(**n, val);
                }
                let ghost before = **n;
                if val < n.val {
                    Self::insert(&mut n.left, val);
                    assert(Self::keys_of(Some(*n)) =~= Self::keys_of(Some(Box::new(before))).insert(val));
                } else if val > n.val {
                    assert(key_lt(n.val, val));
                    Self::insert(&mut n.right, val);
                    assert(Self::keys_of(Some(*n)) =~= Self::keys_of(Some(Box::new(before))).insert(val));
                } else {
                    assert(!key_lt(n.val, val));
                    assert(Self::keys_of(Some(*n)) =~= Self::keys_of(Some(*n)).insert(val));
                }
            },
        }
    }

    /// Recursive membership test.
    fn search(node: &Node<T>, val: T) -> (found: bool)
        requires
            strict_total_order::<T>(),
            Self::ordered(*node),
        ensures
            found == Self::keys_of(*node).contains(val),
        decreases *node,
    {
        match node {
            None => false,
            Some(n) => {
                proof {
                    Self::lemma_side(**n, val);
                }
                if val < n.val {
                    Self::search(&n.left, val)
                } else if val > n.val {
                    assert(key_lt(n.val, val));
                    Self::search(&n.right, val)
                } else {
                    assert(!key_lt(n.val, val));
                    true
                }
            },
        }
    }
}

/// The tree as its root and its two subtrees: what a caller needs to follow an
/// insertion node by node.
impl<T: Copy + PartialOrd> Bstree<T> {
    /// The tree with the given key at the root above the given subtrees.
    pub closed spec fn node(left: Node<T>, val: T, right: Node<T>) -> Node<T> {
        Some(Box::new(Bstree { val, left, right }))
    }

    /// The key at the root; none for the empty tree.
    pub closed spec fn root_key(node: Node<T>) -> Option<T> {
        match node {
            None => None,
            Some(n) => Some(n.val),
        }
    }

    /// The two subtrees of a non-empty tree.
    pub closed spec fn children(node: Node<T>) -> Option<(Node<T>, Node<T>)> {
        match node {
            None => None,
            Some(n) => Some((n.left, n.right)),
        }
    }

    /// What `node` puts together, the accessors take apart; every non-empty
    /// tree is the node of its root key and its subtrees.
    pub proof fn lemma_node(left: Node<T>, val: T, right: Node<T>)
        ensures
            Self::node(left, val, right) is Some,
            Self::root_key(Self::node(left, val, right)) == Some(val),
            Self::children(Self::node(left, val, right)) == Some((left, right)),
    {
    }

    /// Keys, ordering and insertion in terms of the root and its subtrees.
    pub proof fn lemma_root(node: Node<T>, val: T)
        ensures
            node is None ==> Self::keys_of(node) == Set::<T>::empty() && Self::ordered(node)
                && Self::placed(node, val) == Self::node(None, val, None),
            node is Some ==> (Self::root_key(node) matches Some(k) && (Self::children(
                node,
            ) matches Some((l, r)) && ({
                &&& node == Self::node(l, k, r)
                &&& Self::keys_of(node) == Self::keys_of(l).union(Self::keys_of(r)).insert(k)
                &&& Self::ordered(node) == (Self::ordered(l) && Self::ordered(r) && (forall|j: T| #[trigger]
                    Self::keys_of(l).contains(j) ==> key_lt(j, k)) && (forall|j: T| #[trigger]
                    Self::keys_of(r).contains(j) ==> key_lt(k, j)))
                &&& Self::placed(node, val) == if key_lt(val, k) {
                    Self::node(Self::placed(l, val), k, r)
                } else if key_lt(k, val) {
                    Self::node(l, k, Self::placed(r, val))
                } else {
                    node
                }
            }))),
    {
        if node is None {
            assert(Self::keys_of(node) =~= Set::<T>::empty());
        } else {
            let n = node->0;
            assert(Self::keys_of(node) == Self::keys_of(n.left).union(Self::keys_of(n.right)).insert(
                n.val,
            ));
            assert(Self::ordered(node) == (Self::ordered(n.left) && Self::ordered(n.right) && (
            forall|j: T| #[trigger] Self::keys_of(n.left).contains(j) ==> key_lt(j, n.val)) && (
            forall|j: T| #[trigger] Self::keys_of(n.right).contains(j) ==> key_lt(n.val, j))));
        }
    }
}

/// The operations of the baseline tree.
pub trait BinarySearchTree<T: Copy + PartialOrd>: Sized {
    /// The set of keys held by the tree.
    spec fn keys(&self) -> Set<T>;

    /// Search-tree ordering holds at every node.
    spec fn is_ordered(&self) -> bool;

    /// The tree without any key.
    spec fn empty() -> Self;

    /// The tree that inserting `val` gives: the key becomes a new leaf where
    /// the search for it ends; a key that the tree holds leaves it as it is.
    spec fn with_key(&self, val: T) -> Self;

    /// The empty tree.
    fn gen_empty_tree() -> (tree: Self)
        ensures
            tree == Self::empty(),
            tree.is_ordered(),
            tree.keys() == Set::<T>::empty(),
    ;

    /// A fresh one-node tree holding `val`; the receiver is left as it was.
    fn new_node(&mut self, val: T) -> (node: Self)
        ensures
            *final(self) == *old(self),
            node.is_ordered(),
            node.keys() == Set::<T>::empty().insert(val),
            node == Self::empty().with_key(val),
    ;

    /// Adds `val`. A key that is already present leaves the tree untouched.
    fn insert_node(&mut self, val: T)
        requires
            strict_total_order::<T>(),
            old(self).is_ordered(),
        ensures
            final(self).is_ordered(),
            final(self).keys() == old(self).keys().insert(val),
            old(self).keys().contains(val) ==> *final(self) == *old(self),
            *final(self) == old(self).with_key(val),
    ;

    /// Membership test by recursive descent.
    fn search_node(&self, val: T) -> (found: bool)
        requires
            strict_total_order::<T>(),
            self.is_ordered(),
        ensures
            found == self.keys().contains(val),
    ;

    /// Membership test by an iterative walk from the root.
    fn search_node_optimize(&self, val: T) -> (found: bool)
        requires
            strict_total_order::<T>(),
            self.is_ordered(),
        ensures
            found == self.keys().contains(val),
    ;
}

impl<T: Copy + PartialOrd> BinarySearchTree<T> for Node<T> {
    open spec fn keys(&self) -> Set<T> {
        Bstree::keys_of(*self)
    }

    open spec fn is_ordered(&self) -> bool {
        Bstree::ordered(*self)
    }

    open spec fn empty() -> Self {
        None
    }

    open spec fn with_key(&self, val: T) -> Self {
        Bstree::placed(*self, val)
    }

    fn gen_empty_tree() -> (tree: Self) {
        assert(Bstree::<T>::keys_of(None) =~= Set::<T>::empty());
        None
    }

    fn new_node(&mut self, val: T) -> (node: Self) {
        let node = Some(Box::new(Bstree { val, left: None, right: None }));
        assert(Bstree::<T>::keys_of(None) =~= Set::<T>::empty());
        assert(Bstree::<T>::ordered(None));
        assert(Bstree::keys_of(node) =~= Set::<T>::empty().insert(val));
        node
    }

    fn insert_node(&mut self, val: T) {
        Bstree::insert(self, val);
    }

    fn search_node(&self, val: T) -> (found: bool) {
        Bstree::search(self, val)
    }

    fn search_node_optimize(&self, val: T) -> (found: bool) {
        let mut cursor: &Node<T> = self;
        loop
            invariant
                strict_total_order::<T>(),
                Bstree::ordered(*cursor),
                Bstree::keys_of(*self).contains(val) == Bstree::keys_of(*cursor).contains(val),
            decreases *cursor,
        {
            match cursor {
                None => {
                    return false;
                },
                Some(n) => {
                    proof {
                        Bstree::lemma_side(**n, val);
                    }
                    if val < n.val {
                        cursor = &n.left;
                    } else if val > n.val {
                        assert(key_lt(n.val, val));
                        cursor = &n.right;
                    } else {
                        assert(!key_lt(n.val, val));
                        return true;
                    }
                },
            }
        }
    }
}

} // verus!
