//! Folds of sequences under a monoid, and the facts about them that the
//! engines share.

use vstd::prelude::*;
use crate::traits::Monoid;

verus! {

/// `s[0] · s[1] · ... · s[len - 1]`, the identity for an empty sequence.
pub open spec fn fold<M: Monoid>(s: Seq<M::Set>) -> M::Set
    decreases s.len(),
{
    if s.len() == 0 {
        M::id()
    } else {
        M::op(fold::<M>(s.drop_last()), s.last())
    }
}

/// The fold of a sequence with one element is that element.
pub proof fn lemma_fold_one<M: Monoid>(s: Seq<M::Set>)
    requires
        s.len() == 1,
    ensures
        fold::<M>(s) == s[0],
{
    assert(s.drop_last().len() == 0);
    assert(fold::<M>(s.drop_last()) == M::id());
    M::lemma_identity(s[0]);
}

/// A fold splits at every point: `fold(a ++ b) = fold(a) · fold(b)`.
pub proof fn lemma_fold_concat<M: Monoid>(a: Seq<M::Set>, b: Seq<M::Set>)
    ensures
        fold::<M>(a + b) == M::op(fold::<M>(a), fold::<M>(b)),
    decreases b.len(),
{
    if b.len() == 0 {
        assert(a + b =~= a);
        M::lemma_identity(fold::<M>(a));
    } else {
        let ab = a + b;
        assert(ab.drop_last() =~= a + b.drop_last());
        assert(ab.last() == b.last());
        lemma_fold_concat::<M>(a, b.drop_last());
        M::lemma_associative(fold::<M>(a), fold::<M>(b.drop_last()), b.last());
    }
}

/// `fold(s[i..k]) = fold(s[i..j]) · fold(s[j..k])`
pub proof fn lemma_fold_split<M: Monoid>(s: Seq<M::Set>, i: int, j: int, k: int)
    requires
        0 <= i <= j <= k <= s.len(),
    ensures
        fold::<M>(s.subrange(i, k)) == M::op(
            fold::<M>(s.subrange(i, j)),
            fold::<M>(s.subrange(j, k)),
        ),
{
    assert(s.subrange(i, k) =~= s.subrange(i, j) + s.subrange(j, k));
    lemma_fold_concat::<M>(s.subrange(i, j), s.subrange(j, k));
}

} // verus!
