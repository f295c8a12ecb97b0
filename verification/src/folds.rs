//! Specification-level folds of sequences of monoid values, together with
//! the lemmas about them that the containers' proofs rely on.

use vstd::prelude::*;

use crate::algebra::Monoid;

verus! {

/// The left-to-right fold of `s` under the monoid operator, starting from
/// the identity element.
pub open spec fn seq_fold<T: Monoid>(s: Seq<T>) -> T
    decreases s.len(),
{
    if s.len() == 0 {
        T::spec_e()
    } else {
        T::spec_op(seq_fold(s.drop_last()), s.last())
    }
}

/// Folding a single element yields that element.
pub proof fn lemma_fold_singleton<T: Monoid>(x: T)
    ensures
        seq_fold(seq![x]) == x,
{
    let s: Seq<T> = seq![x];
    assert(s.drop_last() =~= Seq::<T>::empty());
    assert(seq_fold(Seq::<T>::empty()) == T::spec_e());
    assert(seq_fold(s) == T::spec_op(T::spec_e(), x));
    T::lemma_identity(x);
}

/// Folding the concatenation of two sequences is the same as combining
/// their folds.
pub proof fn lemma_fold_concat<T: Monoid>(a: Seq<T>, b: Seq<T>)
    ensures
        seq_fold(a + b) == T::spec_op(seq_fold(a), seq_fold(b)),
    decreases b.len(),
{
    if b.len() == 0 {
        assert(a + b =~= a);
        T::lemma_identity(seq_fold(a));
    } else {
        let b0 = b.drop_last();
        lemma_fold_concat(a, b0);
        assert((a + b).drop_last() =~= a + b0);
        assert((a + b).last() == b.last());
        T::lemma_assoc(seq_fold(a), seq_fold(b0), b.last());
    }
}

/// Splitting a contiguous range of a sequence at an interior point and
/// folding the pieces agrees with folding the whole range.
pub proof fn lemma_fold_split<T: Monoid>(s: Seq<T>, l: int, mid: int, r: int)
    requires
        0 <= l <= mid <= r <= s.len(),
    ensures
        seq_fold(s.subrange(l, r)) == T::spec_op(
            seq_fold(s.subrange(l, mid)),
            seq_fold(s.subrange(mid, r)),
        ),
{
    assert(s.subrange(l, r) =~= s.subrange(l, mid) + s.subrange(mid, r));
    lemma_fold_concat(s.subrange(l, mid), s.subrange(mid, r));
}

/// The fold of an empty range is the identity element.
pub proof fn lemma_fold_empty<T: Monoid>(s: Seq<T>, i: int)
    requires
        0 <= i <= s.len(),
    ensures
        seq_fold(s.subrange(i, i)) == T::spec_e(),
{
    assert(s.subrange(i, i) =~= Seq::<T>::empty());
}

} // verus!
