//! Laws of the red-black tree that span several operations.

use crate::rbtree::{strictly_increasing, RBTree};
use crate::seqs::lemma_push_has;
use vstd::arithmetic::power2::pow2;
use vstd::prelude::*;

verus! {

/// The height of a valid tree is logarithmic in the number of its keys: with
/// `n` keys and black height `b`, `2^b <= n + 1` and the height `h` is at
/// most `2b`, hence at most twice the binary logarithm of `n + 1`; and
/// `n + 1 <= 2^h`, so `h` is at least the binary logarithm of `n + 1`. The
/// height is zero for the empty tree only. Over 32-bit keys no valid tree is
/// taller than 65 levels.
pub proof fn law_height_logarithmic(tree: RBTree)
    requires
        tree.wf(),
    ensures
        tree@.finite(),
        pow2(tree.black_height()) <= tree@.len() + 1,
        tree.height() <= 2 * tree.black_height(),
        tree@.len() + 1 <= pow2(tree.height()),
        tree.height() == 0 <==> tree@.len() == 0,
        tree.height() <= 65,
{
    tree.lemma_height();
    tree.lemma_count_below_height();
    tree.lemma_shape();
    if tree.root_key() is Some {
        tree.lemma_unfold();
        assert(tree@.contains(tree.root_key()->0));
    } else {
        RBTree::lemma_empty();
    }
}

/// Inserting the keys `vals` one after the other into an empty tree yields a
/// valid tree that holds exactly the distinct keys of `vals`, and whose
/// in-order traversal lists them in strictly ascending order. `trees[i]` is
/// the tree before the `i`-th insertion; each step is related as
/// `insert_node` promises.
pub proof fn law_inserts_collect_keys(trees: Seq<RBTree>, vals: Seq<u32>)
    requires
        trees.len() == vals.len() + 1,
        trees[0].wf(),
        trees[0]@ == Set::<u32>::empty(),
        forall|i: int|
            0 <= i < vals.len() ==> (#[trigger] trees[i + 1]).wf() && trees[i + 1]@
                == trees[i]@.insert(vals[i]),
    ensures
        trees.last().wf(),
        trees.last()@ == vals.to_set(),
        trees.last().in_order().to_set() == vals.to_set(),
        strictly_increasing(trees.last().in_order()),
    decreases vals.len(),
{
    if vals.len() == 0 {
        assert(vals.to_set() =~= Set::<u32>::empty());
    } else {
        let n = vals.len() as int;
        let shorter = trees.drop_last();
        let fewer = vals.drop_last();
        assert forall|i: int| 0 <= i < fewer.len() implies (#[trigger] shorter[i + 1]).wf()
            && shorter[i + 1]@ == shorter[i]@.insert(fewer[i]) by {
            assert(trees[i + 1].wf());
        }
        law_inserts_collect_keys(shorter, fewer);
        assert(shorter.last() == trees[n - 1]);
        assert(trees[n - 1 + 1].wf());
        assert(trees.last()@ == trees[n - 1]@.insert(vals[n - 1]));
        assert(fewer.to_set().insert(vals[n - 1]) =~= vals.to_set()) by {
            assert forall|k: u32| fewer.to_set().insert(vals[n - 1]).contains(k)
                == vals.to_set().contains(k) by {
                lemma_push_has(fewer, vals[n - 1], k);
                assert(fewer.push(vals[n - 1]) =~= vals);
            }
        }
    }
    trees.last().lemma_in_order();
}

/// Deleting a key that is present and inserting it again gives back a valid
/// tree with the key set from before; shape and colors may differ. `mid` and
/// `end` are related to their predecessors as `delete` and `insert_node` promise.
pub proof fn law_delete_then_insert_restores(start: RBTree, mid: RBTree, end: RBTree, k: u32)
    requires
        start.wf(),
        start@.contains(k),
        mid.wf() && mid@ == start@.remove(k),
        end.wf() && end@ == mid@.insert(k),
    ensures
        end.wf(),
        end@ == start@,
{
    assert(end@ =~= start@);
}

} // verus!
