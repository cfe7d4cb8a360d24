//! Small facts about membership in sequences that the traversal proofs share.

use vstd::prelude::*;

verus! {

/// A concatenation holds what either part holds.
pub proof fn lemma_concat_has<A>(a: Seq<A>, b: Seq<A>, k: A)
    ensures
        (a + b).contains(k) <==> a.contains(k) || b.contains(k),
{
    let s = a + b;
    if s.contains(k) {
        let i = choose|i: int| 0 <= i < s.len() && s[i] == k;
        if i < a.len() {
            assert(a[i] == k);
        } else {
            assert(b[i - a.len()] == k);
        }
    }
    if a.contains(k) {
        let i = choose|i: int| 0 <= i < a.len() && a[i] == k;
        assert(s[i] == k);
    }
    if b.contains(k) {
        let i = choose|i: int| 0 <= i < b.len() && b[i] == k;
        assert(s[a.len() + i] == k);
    }
}

/// A sequence extended by one element holds that element and what it held before.
pub proof fn lemma_push_has<A>(a: Seq<A>, v: A, k: A)
    ensures
        a.push(v).contains(k) <==> a.contains(k) || k == v,
{
    let s = a.push(v);
    if s.contains(k) {
        let i = choose|i: int| 0 <= i < s.len() && s[i] == k;
        if i < a.len() {
            assert(a[i] == k);
        }
    }
    if a.contains(k) {
        let i = choose|i: int| 0 <= i < a.len() && a[i] == k;
        assert(s[i] == k);
    }
    if k == v {
        assert(s[a.len() as int] == k);
    }
}

} // verus!
