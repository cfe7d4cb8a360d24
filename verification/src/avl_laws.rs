//! Laws of the AVL tree that span several operations.

use crate::avl::{strictly_increasing, AvlTree, AvlTreeNode, TreeNode};
use crate::keys::ranked;
use vstd::arithmetic::power2::pow2;
use vstd::prelude::*;

verus! {

/// The Fibonacci numbers, starting 0, 1, 1, 2.
pub open spec fn fib(n: nat) -> nat
    decreases n,
{
    if n < 2 {
        n
    } else {
        fib((n - 1) as nat) + fib((n - 2) as nat)
    }
}

/// The Fibonacci numbers never decrease.
proof fn lemma_fib_monotonic(a: nat, b: nat)
    requires
        a <= b,
    ensures
        fib(a) <= fib(b),
    decreases b,
{
    if a < b {
        if b >= 2 {
            lemma_fib_monotonic(a, (b - 1) as nat);
        } else {
            assert(a == 0 && b == 1);
        }
    }
}

/// A tree with balanced heights has at least `fib(h + 2) - 1` nodes.
proof fn lemma_fib_size<T: PartialOrd + Copy>(t: AvlTreeNode<T>)
    requires
        TreeNode::balanced(t),
    ensures
        fib(TreeNode::height_of(t) + 2) <= TreeNode::size_of(t) + 1,
    decreases t,
{
    assert(fib(2) == 1) by {
        assert(fib(2) == fib(1) + fib(0));
    }
    TreeNode::lemma_children(t);
    if let Some((l, r)) = TreeNode::children(t) {
        lemma_fib_size(l);
        lemma_fib_size(r);
        let h = TreeNode::height_of(t);
        let hl = TreeNode::height_of(l);
        let hr = TreeNode::height_of(r);
        assert(fib(h + 2) == fib(h + 1) + fib(h));
        if hl >= hr {
            lemma_fib_monotonic(h, hr + 2);
        } else {
            lemma_fib_monotonic(h, hl + 2);
        }
    }
}

/// The height of a valid tree is logarithmic in the number of its keys: a
/// tree of height `h` holds at least `fib(h + 2) - 1` keys, which puts `h`
/// below 1.45 times the binary logarithm of the key count plus two, and at
/// most `2^h - 1` keys, which puts `h` at or above the binary logarithm of
/// the key count plus one. The height is zero for the empty tree only. No
/// valid tree is taller than 129 levels, as there are at most 2^64 keys.
pub proof fn law_height_logarithmic<T: PartialOrd + Copy>(t: AvlTreeNode<T>)
    requires
        ranked::<T>(),
        t.is_avl(),
    ensures
        t.keys().finite(),
        fib(t.tree_height() + 2) <= t.keys().len() + 1,
        t.keys().len() + 1 <= pow2(t.tree_height()),
        t.tree_height() == 0 <==> t.keys().len() == 0,
        t.tree_height() <= 129,
{
    lemma_fib_size(t);
    TreeNode::lemma_size_below_height(t);
    TreeNode::lemma_children(t);
    TreeNode::lemma_in_order(t);
    TreeNode::lemma_traversals(t);
    TreeNode::lemma_height_bound(t);
    let s = TreeNode::in_order(t);
    assert(s.no_duplicates());
    s.unique_seq_to_set();
    vstd::seq_lib::seq_to_set_is_finite(s);
}

/// Inserting the keys `vals` one after the other into an empty tree yields a
/// tree that holds exactly the distinct keys of `vals`, and whose in-order
/// traversal lists them in strictly ascending order. `trees[i]` is the tree
/// before the `i`-th insertion; each step is related as `insert_node` promises.
pub proof fn law_inserts_collect_keys<T: PartialOrd + Copy>(
    trees: Seq<AvlTreeNode<T>>,
    vals: Seq<T>,
)
    requires
        ranked::<T>(),
        trees.len() == vals.len() + 1,
        trees[0].is_avl(),
        trees[0].keys() == Set::<T>::empty(),
        forall|i: int|
            0 <= i < vals.len() ==> (#[trigger] trees[i + 1]).is_avl() && trees[i + 1].keys()
                == trees[i].keys().insert(vals[i]),
    ensures
        trees.last().is_avl(),
        trees.last().keys() == vals.to_set(),
        trees.last().in_order_seq().to_set() == vals.to_set(),
        strictly_increasing(trees.last().in_order_seq()),
    decreases vals.len(),
{
    if vals.len() == 0 {
        assert(vals.to_set() =~= Set::<T>::empty());
    } else {
        let n = vals.len() as int;
        let shorter = trees.drop_last();
        let fewer = vals.drop_last();
        assert forall|i: int| 0 <= i < fewer.len() implies (#[trigger] shorter[i + 1]).is_avl()
            && shorter[i + 1].keys() == shorter[i].keys().insert(fewer[i]) by {
            assert(trees[i + 1].is_avl());
        }
        law_inserts_collect_keys(shorter, fewer);
        assert(shorter.last() == trees[n - 1]);
        assert(trees[n - 1 + 1].is_avl());
        assert(trees.last().keys() == trees[n - 1].keys().insert(vals[n - 1]));
        assert(fewer.to_set().insert(vals[n - 1]) =~= vals.to_set()) by {
            assert forall|k: T| fewer.to_set().insert(vals[n - 1]).contains(k)
                == vals.to_set().contains(k) by {
                crate::seqs::lemma_push_has(fewer, vals[n - 1], k);
                assert(fewer.push(vals[n - 1]) =~= vals);
            }
        }
    }
    TreeNode::lemma_in_order(trees.last());
    TreeNode::lemma_traversals(trees.last());
}

/// Deleting a key that is present and inserting it again gives back a valid
/// tree with the key set from before; the shape may differ. `mid` and `end`
/// are related to their predecessors as `delete_node` and `insert_node` promise.
pub proof fn law_delete_then_insert_restores<T: PartialOrd + Copy>(
    start: AvlTreeNode<T>,
    mid: AvlTreeNode<T>,
    end: AvlTreeNode<T>,
    k: T,
)
    requires
        ranked::<T>(),
        start.is_avl(),
        start.keys().contains(k),
        mid.is_avl() && mid.keys() == start.keys().remove(k),
        end.is_avl() && end.keys() == mid.keys().insert(k),
    ensures
        end.is_avl(),
        end.keys() == start.keys(),
        end.in_order_seq() == start.in_order_seq(),
{
    assert(end.keys() =~= start.keys());
    TreeNode::lemma_in_order_unique(start, end);
}

} // verus!
