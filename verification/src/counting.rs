//! Occurrence counts over sequences.
//!
//! The topological-sort proof and the forest's edge-reciprocity invariant
//! both reason about how many times a value occurs in a sequence, and how
//! many elements of one sequence lie outside another.  The two spec
//! functions here give those counts a recursive definition, and the lemmas
//! provide the facts about them that the proofs need.

use vstd::prelude::*;

verus! {

/// How many positions of `s` hold exactly `x`.
pub open spec fn count_occ<A>(s: Seq<A>, x: A) -> nat
    decreases s.len(),
{
    if s.len() == 0 {
        0
    } else {
        (if s.last() == x {
            1nat
        } else {
            0nat
        }) + count_occ(s.drop_last(), x)
    }
}

/// How many positions of `s` hold a value that `excl` does not contain.
pub open spec fn count_not_in(s: Seq<usize>, excl: Seq<usize>) -> nat
    decreases s.len(),
{
    if s.len() == 0 {
        0
    } else {
        (if excl.contains(s.last()) {
            0nat
        } else {
            1nat
        }) + count_not_in(s.drop_last(), excl)
    }
}

/// Membership in a pushed sequence is membership in the original or equality
/// with the new element.
pub proof fn lemma_contains_push<A>(s: Seq<A>, k: A, x: A)
    ensures
        s.push(k).contains(x) <==> (s.contains(x) || x == k),
{
    if s.contains(x) {
        let i = choose|i: int| 0 <= i < s.len() && s[i] == x;
        assert(s.push(k)[i] == x);
    }
    if x == k {
        assert(s.push(k)[s.len() as int] == x);
    }
    if s.push(k).contains(x) {
        let i = choose|i: int| 0 <= i < s.push(k).len() && s.push(k)[i] == x;
        if i < s.len() {
            assert(s[i] == x);
        }
    }
}

/// Pushing an element onto a sequence raises its own count by one and
/// leaves every other count unchanged.
pub proof fn lemma_count_occ_push<A>(s: Seq<A>, y: A, x: A)
    ensures
        count_occ(s.push(y), x) == count_occ(s, x) + (if y == x {
            1nat
        } else {
            0nat
        }),
{
    assert(s.push(y).drop_last() =~= s);
}

/// A count over a prefix never exceeds the count over the whole sequence.
pub proof fn lemma_count_occ_take_le<A>(s: Seq<A>, p: int, x: A)
    requires
        0 <= p <= s.len(),
    ensures
        count_occ(s.take(p), x) <= count_occ(s, x),
    decreases s.len(),
{
    if p < s.len() {
        assert(s.take(p) =~= s.drop_last().take(p));
        lemma_count_occ_take_le(s.drop_last(), p, x);
    } else {
        assert(s.take(p) =~= s);
    }
}

/// Extending a prefix by one position adds that position's contribution.
pub proof fn lemma_count_occ_take_step<A>(s: Seq<A>, p: int, x: A)
    requires
        0 <= p < s.len(),
    ensures
        count_occ(s.take(p + 1), x) == count_occ(s.take(p), x) + (if s[p] == x {
            1nat
        } else {
            0nat
        }),
{
    assert(s.take(p + 1) =~= s.take(p).push(s[p]));
    lemma_count_occ_push(s.take(p), s[p], x);
}

/// A value occurs zero times exactly when the sequence does not contain it.
pub proof fn lemma_count_occ_zero<A>(s: Seq<A>, x: A)
    ensures
        count_occ(s, x) == 0 <==> !s.contains(x),
    decreases s.len(),
{
    if s.len() > 0 {
        lemma_count_occ_zero(s.drop_last(), x);
        if s.contains(x) {
            let i = choose|i: int| 0 <= i < s.len() && s[i] == x;
            if i < s.len() - 1 {
                assert(s.drop_last()[i] == x);
            }
        }
        if s.drop_last().contains(x) {
            let i = choose|i: int| 0 <= i < s.drop_last().len() && s.drop_last()[i] == x;
            assert(s[i] == x);
        }
    }
}

/// With nothing excluded, every position counts.
pub proof fn lemma_count_not_in_empty(s: Seq<usize>)
    ensures
        count_not_in(s, Seq::<usize>::empty()) == s.len(),
    decreases s.len(),
{
    if s.len() > 0 {
        lemma_count_not_in_empty(s.drop_last());
    }
}

/// Excluding one more value `k` removes exactly the occurrences of `k`,
/// provided `k` was not excluded before.
pub proof fn lemma_count_not_in_push(s: Seq<usize>, excl: Seq<usize>, k: usize)
    requires
        !excl.contains(k),
    ensures
        count_not_in(s, excl.push(k)) + count_occ(s, k) == count_not_in(s, excl),
    decreases s.len(),
{
    if s.len() > 0 {
        lemma_count_not_in_push(s.drop_last(), excl, k);
        lemma_contains_push(excl, k, s.last());
    }
}

/// Occurrences of an unexcluded value are all counted by `count_not_in`.
pub proof fn lemma_count_not_in_ge_occ(s: Seq<usize>, excl: Seq<usize>, k: usize)
    requires
        !excl.contains(k),
    ensures
        count_not_in(s, excl) >= count_occ(s, k),
    decreases s.len(),
{
    if s.len() > 0 {
        lemma_count_not_in_ge_occ(s.drop_last(), excl, k);
    }
}

/// The outside count is zero exactly when every element is excluded.
pub proof fn lemma_count_not_in_zero(s: Seq<usize>, excl: Seq<usize>)
    ensures
        count_not_in(s, excl) == 0 <==> (forall|i: int|
            0 <= i < s.len() ==> excl.contains(s[i])),
    decreases s.len(),
{
    if s.len() > 0 {
        lemma_count_not_in_zero(s.drop_last(), excl);
        if count_not_in(s, excl) == 0 {
            assert forall|i: int| 0 <= i < s.len() implies excl.contains(s[i]) by {
                if i < s.len() - 1 {
                    assert(s.drop_last()[i] == s[i]);
                }
            }
        }
        if forall|i: int| 0 <= i < s.len() ==> excl.contains(s[i]) {
            assert forall|i: int| 0 <= i < s.drop_last().len() implies excl.contains(
                s.drop_last()[i],
            ) by {
                assert(s.drop_last()[i] == s[i]);
            }
        }
    }
}

} // verus!
