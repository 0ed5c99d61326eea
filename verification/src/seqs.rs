//! Small sequence facts used throughout the solver: occurrence counts in the
//! chosen-edge sequence, and their behaviour under push and remove.

use vstd::prelude::*;

verus! {

use vstd::multiset::Multiset;

/// How many times `v` occurs in `s`.
pub open spec fn occ<A>(s: Seq<A>, v: A) -> nat {
    s.to_multiset().count(v)
}

/// Appending `x` raises the count of `x` by one and leaves every other count
/// unchanged.
pub proof fn lemma_occ_push<A>(s: Seq<A>, x: A, v: A)
    ensures
        occ(s.push(x), v) == occ(s, v) + (if x == v {
            1int
        } else {
            0int
        }),
{
    broadcast use vstd::seq_lib::group_to_multiset_ensures;
    broadcast use vstd::multiset::group_multiset_axioms;

}

/// Removing position `i` lowers the count of `s[i]` by one and leaves every
/// other count unchanged.
pub proof fn lemma_occ_remove<A>(s: Seq<A>, i: int, v: A)
    requires
        0 <= i < s.len(),
    ensures
        occ(s.remove(i), v) == occ(s, v) - (if s[i] == v {
            1int
        } else {
            0int
        }),
{
    broadcast use vstd::seq_lib::group_to_multiset_ensures;
    broadcast use vstd::multiset::group_multiset_axioms;

    assert(s.contains(s[i]));
}

/// A value occurs in `s` exactly when its count is positive.
pub proof fn lemma_occ_contains<A>(s: Seq<A>, v: A)
    ensures
        occ(s, v) > 0 <==> s.contains(v),
{
    broadcast use vstd::seq_lib::group_to_multiset_ensures;

}

/// The empty sequence holds nothing.
pub proof fn lemma_occ_empty<A>(v: A)
    ensures
        occ(Seq::<A>::empty(), v) == 0,
{
    broadcast use vstd::seq_lib::group_to_multiset_ensures;
    broadcast use vstd::multiset::group_multiset_axioms;

    assert(!Seq::<A>::empty().contains(v));
}

/// A prefix never holds more occurrences of a value than the whole
/// sequence.
pub proof fn lemma_occ_take_le<A>(s: Seq<A>, k: int, v: A)
    requires
        0 <= k <= s.len(),
    ensures
        occ(s.take(k), v) <= occ(s, v),
    decreases s.len() - k,
{
    if k == s.len() {
        assert(s.take(k) =~= s);
    } else {
        lemma_occ_take_le(s, k + 1, v);
        assert(s.take(k + 1) =~= s.take(k).push(s[k]));
        lemma_occ_push(s.take(k), s[k], v);
    }
}

/// Sequences with equal multisets hold the same values.
pub proof fn lemma_same_multiset_same_contains<A>(s1: Seq<A>, s2: Seq<A>, v: A)
    requires
        s1.to_multiset() == s2.to_multiset(),
    ensures
        s1.contains(v) <==> s2.contains(v),
{
    broadcast use vstd::seq_lib::group_to_multiset_ensures;

    if s1.contains(v) {
        assert(s1.to_multiset().count(v) > 0);
        assert(s2.to_multiset().count(v) > 0);
    }
    if s2.contains(v) {
        assert(s2.to_multiset().count(v) > 0);
        assert(s1.to_multiset().count(v) > 0);
    }
}

} // verus!
