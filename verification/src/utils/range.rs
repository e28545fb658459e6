//! Range expressions and their normal form, the half-open interval.
//!
//! A query takes any range expression (`a..b`, `a..=b`, `..b`, `a..`, `..`, ...).
//! Every such expression is first brought to a half-open interval
//! `[start, end)` clamped into the index space of the structure by
//! [`range_start`] and [`range_end`].

use std::ops::{Range, RangeFrom, RangeFull, RangeInclusive, RangeTo, RangeToInclusive};
use vstd::prelude::*;
use vstd::std_specs::cmp::{PartialOrdIs, PartialOrdSpec};

verus! {

/// `std::ops::RangeFrom`, the type of `a..`: a struct with the one public
/// field `start`.
#[verifier::external_type_specification]
#[verifier::reject_recursive_types(Idx)]
pub struct ExRangeFrom<Idx>(RangeFrom<Idx>);

/// `std::ops::RangeTo`, the type of `..b`: a struct with the one public
/// field `end`.
#[verifier::external_type_specification]
#[verifier::reject_recursive_types(Idx)]
pub struct ExRangeTo<Idx>(RangeTo<Idx>);

/// `std::ops::RangeToInclusive`, the type of `..=b`: a struct with the one
/// public field `end`.
#[verifier::external_type_specification]
#[verifier::reject_recursive_types(Idx)]
pub struct ExRangeToInclusive<Idx>(RangeToInclusive<Idx>);

/// `std::ops::RangeFull`, the type of `..`: a struct without fields.
#[verifier::external_type_specification]
pub struct ExRangeFull(RangeFull);

/// `RangeInclusive::start` returns the lower bound that the range was made
/// with, which is the `start` of its view.
pub assume_specification<Idx>[ RangeInclusive::<Idx>::start ](r: &RangeInclusive<Idx>) -> (s: &Idx)
    ensures
        *s == r@.start,
;

/// `RangeInclusive::end` returns the upper bound that the range was made
/// with, which is the `end` of its view.
pub assume_specification<Idx>[ RangeInclusive::<Idx>::end ](r: &RangeInclusive<Idx>) -> (e: &Idx)
    ensures
        *e == r@.end,
;

/// An endpoint of a range of indices.
pub enum Bound<T> {
    /// The endpoint belongs to the range.
    Included(T),
    /// The endpoint does not belong to the range.
    Excluded(T),
    /// The range has no endpoint on this side.
    Unbounded,
}

/// Range expressions with endpoints of type `T`.
pub trait RangeBounds<T> {
    /// The lower endpoint.
    spec fn start_bound_spec(&self) -> Bound<T>;

    /// The upper endpoint.
    spec fn end_bound_spec(&self) -> Bound<T>;

    /// Returns the lower endpoint.
    fn start_bound(&self) -> (b: Bound<&T>)
        ensures
            bound_value(b) == self.start_bound_spec(),
    ;

    /// Returns the upper endpoint.
    fn end_bound(&self) -> (b: Bound<&T>)
        ensures
            bound_value(b) == self.end_bound_spec(),
    ;

    /// Tells whether `item` lies in the range. The answer is specified where
    /// the comparisons between `T` and `U` are.
    fn contains<U>(&self, item: &U) -> (r: bool) where T: PartialOrd<U>, U: PartialOrd<T>
        ensures
            T::obeys_partial_cmp_spec() && U::obeys_partial_cmp_spec() ==> r == lies_between(
                self.start_bound_spec(),
                self.end_bound_spec(),
                item,
            ),
    {
        let above = match self.start_bound() {
            Bound::Included(start) => *start <= *item,
            Bound::Excluded(start) => *start < *item,
            Bound::Unbounded => true,
        };
        let below = match self.end_bound() {
            Bound::Included(end) => *item <= *end,
            Bound::Excluded(end) => *item < *end,
            Bound::Unbounded => true,
        };
        above && below
    }
}

/// Whether `item` lies between two endpoints: not below the lower one, nor at
/// it where it is excluded, and likewise for the upper one.
pub open spec fn lies_between<T: PartialOrd<U>, U: PartialOrd<T>>(start: Bound<T>, end: Bound<T>, item: &U) -> bool {
    &&& match start {
        Bound::Included(start) => start.is_le(item),
        Bound::Excluded(start) => start.is_lt(item),
        Bound::Unbounded => true,
    }
    &&& match end {
        Bound::Included(end) => item.is_le(&end),
        Bound::Excluded(end) => item.is_lt(&end),
        Bound::Unbounded => true,
    }
}

/// The endpoint behind a borrowed endpoint.
pub open spec fn bound_value<T>(b: Bound<&T>) -> Bound<T> {
    match b {
        Bound::Included(x) => Bound::Included(*x),
        Bound::Excluded(x) => Bound::Excluded(*x),
        Bound::Unbounded => Bound::Unbounded,
    }
}

impl<T> RangeBounds<T> for Range<T> {
    open spec fn start_bound_spec(&self) -> Bound<T> {
        Bound::Included(self.start)
    }

    open spec fn end_bound_spec(&self) -> Bound<T> {
        Bound::Excluded(self.end)
    }

    fn start_bound(&self) -> (b: Bound<&T>) {
        Bound::Included(&self.start)
    }

    fn end_bound(&self) -> (b: Bound<&T>) {
        Bound::Excluded(&self.end)
    }
}

impl<T> RangeBounds<T> for RangeInclusive<T> {
    open spec fn start_bound_spec(&self) -> Bound<T> {
        Bound::Included(self@.start)
    }

    open spec fn end_bound_spec(&self) -> Bound<T> {
        Bound::Included(self@.end)
    }

    fn start_bound(&self) -> (b: Bound<&T>) {
        Bound::Included(self.start())
    }

    fn end_bound(&self) -> (b: Bound<&T>) {
        Bound::Included(self.end())
    }
}

impl<T> RangeBounds<T> for RangeFrom<T> {
    open spec fn start_bound_spec(&self) -> Bound<T> {
        Bound::Included(self.start)
    }

    open spec fn end_bound_spec(&self) -> Bound<T> {
        Bound::Unbounded
    }

    fn start_bound(&self) -> (b: Bound<&T>) {
        Bound::Included(&self.start)
    }

    fn end_bound(&self) -> (b: Bound<&T>) {
        Bound::Unbounded
    }
}

impl<T> RangeBounds<T> for RangeTo<T> {
    open spec fn start_bound_spec(&self) -> Bound<T> {
        Bound::Unbounded
    }

    open spec fn end_bound_spec(&self) -> Bound<T> {
        Bound::Excluded(self.end)
    }

    fn start_bound(&self) -> (b: Bound<&T>) {
        Bound::Unbounded
    }

    fn end_bound(&self) -> (b: Bound<&T>) {
        Bound::Excluded(&self.end)
    }
}

impl<T> RangeBounds<T> for RangeToInclusive<T> {
    open spec fn start_bound_spec(&self) -> Bound<T> {
        Bound::Unbounded
    }

    open spec fn end_bound_spec(&self) -> Bound<T> {
        Bound::Included(self.end)
    }

    fn start_bound(&self) -> (b: Bound<&T>) {
        Bound::Unbounded
    }

    fn end_bound(&self) -> (b: Bound<&T>) {
        Bound::Included(&self.end)
    }
}

impl<T> RangeBounds<T> for RangeFull {
    open spec fn start_bound_spec(&self) -> Bound<T> {
        Bound::Unbounded
    }

    open spec fn end_bound_spec(&self) -> Bound<T> {
        Bound::Unbounded
    }

    fn start_bound(&self) -> (b: Bound<&T>) {
        Bound::Unbounded
    }

    fn end_bound(&self) -> (b: Bound<&T>) {
        Bound::Unbounded
    }
}

/// The first index of a range, before clamping: the lower endpoint itself when
/// it is included, the index after it when it is excluded, and 0 when the range
/// has no lower endpoint.
pub open spec fn start_index(b: Bound<usize>) -> int {
    match b {
        Bound::Included(x) => x as int,
        Bound::Excluded(x) => x + 1,
        Bound::Unbounded => 0,
    }
}

/// The index after the last one of a range, before clamping, where `max`
/// stands in for a missing upper endpoint.
pub open spec fn end_index(b: Bound<usize>, max: int) -> int {
    match b {
        Bound::Included(x) => x + 1,
        Bound::Excluded(x) => x as int,
        Bound::Unbounded => max,
    }
}

/// The start of the half-open interval that `range` stands for, clamped from
/// below to `min`.
pub open spec fn range_start_spec<R: RangeBounds<usize>>(range: &R, min: usize) -> int {
    let start = start_index(range.start_bound_spec());
    if start >= min {
        start
    } else {
        min as int
    }
}

/// The end of the half-open interval that `range` stands for, clamped from
/// above to `max`.
pub open spec fn range_end_spec<R: RangeBounds<usize>>(range: &R, max: usize) -> int {
    let end = end_index(range.end_bound_spec(), max as int);
    if end <= max {
        end
    } else {
        max as int
    }
}

/// Whether the endpoints of `range` can be turned into indices: the index
/// after an excluded lower endpoint, or after an included upper endpoint, has
/// to exist.
pub open spec fn endpoints_fit<R: RangeBounds<usize>>(range: &R) -> bool {
    &&& start_index(range.start_bound_spec()) <= usize::MAX
    &&& end_index(range.end_bound_spec(), 0) <= usize::MAX
}

/// Returns the start of a range as the inclusive start of a half-open
/// interval, but at least `min`.
///
/// A range without a lower endpoint (`..` or `..b`) starts at `min`.
pub fn range_start<R: RangeBounds<usize>>(range: &R, min: usize) -> (start: usize)
    requires
        start_index(range.start_bound_spec()) <= usize::MAX,
    ensures
        start == range_start_spec(range, min),
{
    let start: usize = match range.start_bound() {
        Bound::Included(x) => *x,
        Bound::Excluded(x) => *x + 1,
        Bound::Unbounded => 0,
    };
    if start >= min {
        start
    } else {
        min
    }
}

/// Returns the end of a range as the exclusive end of a half-open interval,
/// but at most `max`.
///
/// A range without an upper endpoint (`..` or `a..`) ends at `max`.
pub fn range_end<R: RangeBounds<usize>>(range: &R, max: usize) -> (end: usize)
    requires
        end_index(range.end_bound_spec(), 0) <= usize::MAX,
    ensures
        end == range_end_spec(range, max),
{
    let end: usize = match range.end_bound() {
        Bound::Included(x) => *x + 1,
        Bound::Excluded(x) => *x,
        Bound::Unbounded => max,
    };
    if end <= max {
        end
    } else {
        max
    }
}

} // verus!
