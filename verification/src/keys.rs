//! What the AVL tree asks of its keys: a strict total order that the
//! comparison operators follow, over at most 2^64 distinct keys.

use core::cmp::Ordering;
use vstd::prelude::*;
use vstd::std_specs::cmp::PartialEqSpec;
use vstd::std_specs::cmp::PartialOrdSpec;

verus! {

/// `r` numbers the keys of `T` in their order: different keys get different
/// numbers between 0 and 2^64, `==` on keys is plain equality, and the
/// comparison of two keys is the comparison of their numbers.
pub open spec fn key_order<T: PartialOrd>(r: spec_fn(T) -> int) -> bool {
    &&& T::obeys_eq_spec()
    &&& T::obeys_partial_cmp_spec()
    &&& forall|a: T, b: T| #[trigger] a.eq_spec(&b) <==> a == b
    &&& forall|a: T, b: T| #[trigger] r(a) == #[trigger] r(b) ==> a == b
    &&& forall|a: T| 0 <= #[trigger] r(a) < 0x1_0000_0000_0000_0000
    &&& forall|a: T, b: T| #[trigger]
        a.partial_cmp_spec(&b) == Some(
            if r(a) < r(b) {
                Ordering::Less
            } else if r(a) == r(b) {
                Ordering::Equal
            } else {
                Ordering::Greater
            },
        )
}

/// A numbering of the keys of `T` in their order, if there is one.
pub open spec fn numbering<T: PartialOrd>() -> spec_fn(T) -> int {
    choose|r: spec_fn(T) -> int| key_order::<T>(r)
}

/// The keys of `T` are strictly and totally ordered, and there are at most
/// 2^64 of them.
pub open spec fn ranked<T: PartialOrd>() -> bool {
    key_order::<T>(numbering::<T>())
}

/// The place of `k` among the keys of its type: a smaller key has a smaller rank.
pub open spec fn rank<T: PartialOrd>(k: T) -> int {
    numbering::<T>()(k)
}

/// A type whose keys can be numbered in order is ranked.
pub proof fn lemma_ranked_by<T: PartialOrd>(r: spec_fn(T) -> int)
    requires
        key_order::<T>(r),
    ensures
        ranked::<T>(),
{
}

/// The built-in integer types of up to 64 bits are ranked.
pub proof fn lemma_integers_are_ranked()
    ensures
        ranked::<u8>(),
        ranked::<u16>(),
        ranked::<u32>(),
        ranked::<u64>(),
        ranked::<usize>(),
        ranked::<i8>(),
        ranked::<i16>(),
        ranked::<i32>(),
        ranked::<i64>(),
        ranked::<isize>(),
{
    lemma_ranked_by::<u8>(|k: u8| k + 0);
    lemma_ranked_by::<u16>(|k: u16| k + 0);
    lemma_ranked_by::<u32>(|k: u32| k + 0);
    lemma_ranked_by::<u64>(|k: u64| k + 0);
    lemma_ranked_by::<usize>(|k: usize| k + 0);
    lemma_ranked_by::<i8>(|k: i8| k + 0x80);
    lemma_ranked_by::<i16>(|k: i16| k + 0x8000);
    lemma_ranked_by::<i32>(|k: i32| k + 0x8000_0000);
    lemma_ranked_by::<i64>(|k: i64| k + 0x8000_0000_0000_0000);
    lemma_ranked_by::<isize>(|k: isize| k + 0x8000_0000_0000_0000);
}

/// How the comparison operators read in terms of ranks.
pub proof fn lemma_compare<T: PartialOrd>(a: T, b: T)
    requires
        ranked::<T>(),
    ensures
        a.partial_cmp_spec(&b) == Some(Ordering::Less) <==> rank(a) < rank(b),
        a.partial_cmp_spec(&b) == Some(Ordering::Greater) <==> rank(b) < rank(a),
        a.eq_spec(&b) <==> a == b,
        rank(a) == rank(b) <==> a == b,
        0 <= rank(a) < 0x1_0000_0000_0000_0000,
        T::obeys_eq_spec(),
        T::obeys_partial_cmp_spec(),
{
}

} // verus!
