//! Folding a range of a sequence under the operation of a monoid.

use crate::traits::math::monoid::Monoid;
use vstd::prelude::*;

verus! {

/// The elements `s[lo], ..., s[hi - 1]` combined from left to right, starting
/// from the identity; the identity itself when the range is empty.
pub open spec fn fold<T: Monoid>(s: Seq<T>, lo: int, hi: int) -> T
    decreases hi - lo,
{
    if hi <= lo {
        T::id_spec()
    } else {
        T::op_spec(fold(s, lo, hi - 1), s[hi - 1])
    }
}

/// Whether every element of the sequence belongs to the carrier set.
pub open spec fn all_valid<T: Monoid>(s: Seq<T>) -> bool {
    forall|i: int| 0 <= i < s.len() ==> (#[trigger] s[i]).valid()
}

/// A fold of members of the carrier is a member of the carrier.
pub proof fn lemma_fold_valid<T: Monoid>(s: Seq<T>, lo: int, hi: int)
    requires
        all_valid(s),
        0 <= lo,
        hi <= s.len(),
    ensures
        fold(s, lo, hi).valid(),
    decreases hi - lo,
{
    if hi <= lo {
        T::lemma_id_valid();
    } else {
        lemma_fold_valid(s, lo, hi - 1);
        T::lemma_closed(fold(s, lo, hi - 1), s[hi - 1]);
    }
}

/// The fold of a single element is that element.
pub proof fn lemma_fold_single<T: Monoid>(s: Seq<T>, i: int)
    requires
        all_valid(s),
        0 <= i < s.len(),
    ensures
        fold(s, i, i + 1) == s[i],
{
    assert(fold(s, i, i) == T::id_spec());
    T::lemma_identity(s[i]);
}

/// A fold can be cut anywhere: the fold of a range is the fold of its left
/// part combined with the fold of its right part.
pub proof fn lemma_fold_split<T: Monoid>(s: Seq<T>, lo: int, mid: int, hi: int)
    requires
        all_valid(s),
        0 <= lo <= mid <= hi <= s.len(),
    ensures
        fold(s, lo, hi) == T::op_spec(fold(s, lo, mid), fold(s, mid, hi)),
    decreases hi - mid,
{
    lemma_fold_valid(s, lo, mid);
    if hi == mid {
        T::lemma_identity(fold(s, lo, mid));
    } else {
        lemma_fold_split(s, lo, mid, hi - 1);
        lemma_fold_valid(s, mid, hi - 1);
        T::lemma_associative(fold(s, lo, mid), fold(s, mid, hi - 1), s[hi - 1]);
    }
}

/// A fold depends only on the elements of its range: two sequences that hold
/// the same elements there, possibly at shifted positions, fold to the same
/// value.
pub proof fn lemma_fold_shift<T: Monoid>(s: Seq<T>, t: Seq<T>, lo: int, hi: int, d: int)
    requires
        0 <= lo,
        hi <= s.len(),
        0 <= lo + d,
        hi + d <= t.len(),
        forall|i: int| lo <= i < hi ==> s[i] == #[trigger] t[i + d],
    ensures
        fold(s, lo, hi) == fold(t, lo + d, hi + d),
    decreases hi - lo,
{
    if hi > lo {
        lemma_fold_shift(s, t, lo, hi - 1, d);
        assert(s[hi - 1] == t[hi - 1 + d]);
    }
}

/// Replacing an element changes no fold over a range that does not hold its
/// position.
pub proof fn lemma_fold_update_elsewhere<T: Monoid>(s: Seq<T>, i: int, v: T, lo: int, hi: int)
    requires
        0 <= i < s.len(),
        0 <= lo,
        hi <= s.len(),
        i < lo || hi <= i,
    ensures
        fold(s.update(i, v), lo, hi) == fold(s, lo, hi),
{
    lemma_fold_shift(s.update(i, v), s, lo, hi, 0);
}

/// After an element has been replaced, the fold over its position alone is
/// the new element.
pub proof fn lemma_fold_update_reflected<T: Monoid>(s: Seq<T>, i: int, v: T)
    requires
        all_valid(s),
        v.valid(),
        0 <= i < s.len(),
    ensures
        fold(s.update(i, v), i, i + 1) == v,
{
    lemma_fold_single(s.update(i, v), i);
}

} // verus!
