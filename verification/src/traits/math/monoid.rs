//! Monoids: an associative operation with an identity element.
//!
//! The data structures of this crate are generic over a [`Monoid`]. Besides the
//! executable operation, an implementation supplies the mathematical operation
//! as a specification function together with proofs of the monoid laws, so that
//! the generic structures can state what their queries return.

use crate::traits::utils::num::{MaxValue, MinValue};
use vstd::prelude::*;

verus! {

/// A set with an associative operation and an identity element.
///
/// `valid` picks the carrier set out of the values of the type; the laws are
/// stated, and the operation is only called, on members of the carrier.
pub trait Monoid: Sized {
    /// Whether the value belongs to the carrier set.
    spec fn valid(self) -> bool;

    /// The operation, as a mathematical function.
    spec fn op_spec(x: Self, y: Self) -> Self;

    /// The identity element.
    spec fn id_spec() -> Self;

    /// Combines two elements.
    fn op(x: Self, y: Self) -> (r: Self)
        requires
            x.valid(),
            y.valid(),
        ensures
            r == Self::op_spec(x, y),
    ;

    /// Returns the identity element.
    fn id() -> (r: Self)
        ensures
            r == Self::id_spec(),
    ;

    /// The identity belongs to the carrier.
    proof fn lemma_id_valid()
        ensures
            Self::id_spec().valid(),
    ;

    /// The carrier is closed under the operation.
    proof fn lemma_closed(x: Self, y: Self)
        requires
            x.valid(),
            y.valid(),
        ensures
            Self::op_spec(x, y).valid(),
    ;

    /// The identity is neutral on both sides.
    proof fn lemma_identity(x: Self)
        requires
            x.valid(),
        ensures
            Self::op_spec(Self::id_spec(), x) == x,
            Self::op_spec(x, Self::id_spec()) == x,
    ;

    /// The operation is associative.
    proof fn lemma_associative(x: Self, y: Self, z: Self)
        requires
            x.valid(),
            y.valid(),
            z.valid(),
        ensures
            Self::op_spec(Self::op_spec(x, y), z) == Self::op_spec(x, Self::op_spec(y, z)),
    ;
}

/// The monoid of taking the smaller value; its identity is the largest value
/// of the type. Together with a segment tree it answers range-minimum queries.
#[derive(Clone, Copy, Debug)]
pub struct Min<T>(pub T);

/// The monoid of taking the larger value; its identity is the smallest value
/// of the type. Together with a segment tree it answers range-maximum queries.
#[derive(Clone, Copy, Debug)]
pub struct Max<T>(pub T);

impl Monoid for Min<u8> {
    open spec fn valid(self) -> bool {
        true
    }

    open spec fn op_spec(x: Self, y: Self) -> Self {
        if x.0 <= y.0 {
            x
        } else {
            y
        }
    }

    open spec fn id_spec() -> Self {
        Min(u8::MAX)
    }

    fn op(x: Self, y: Self) -> (r: Self) {
        if x.0 <= y.0 {
            x
        } else {
            y
        }
    }

    fn id() -> (r: Self) {
        Min(<u8 as MaxValue>::max_value())
    }

    proof fn lemma_id_valid() {
    }

    proof fn lemma_closed(x: Self, y: Self) {
    }

    proof fn lemma_identity(x: Self) {
    }

    proof fn lemma_associative(x: Self, y: Self, z: Self) {
    }
}

impl Monoid for Min<u16> {
    open spec fn valid(self) -> bool {
        true
    }

    open spec fn op_spec(x: Self, y: Self) -> Self {
        if x.0 <= y.0 {
            x
        } else {
            y
        }
    }

    open spec fn id_spec() -> Self {
        Min(u16::MAX)
    }

    fn op(x: Self, y: Self) -> (r: Self) {
        if x.0 <= y.0 {
            x
        } else {
            y
        }
    }

    fn id() -> (r: Self) {
        Min(<u16 as MaxValue>::max_value())
    }

    proof fn lemma_id_valid() {
    }

    proof fn lemma_closed(x: Self, y: Self) {
    }

    proof fn lemma_identity(x: Self) {
    }

    proof fn lemma_associative(x: Self, y: Self, z: Self) {
    }
}

impl Monoid for Min<u32> {
    open spec fn valid(self) -> bool {
        true
    }

    open spec fn op_spec(x: Self, y: Self) -> Self {
        if x.0 <= y.0 {
            x
        } else {
            y
        }
    }

    open spec fn id_spec() -> Self {
        Min(u32::MAX)
    }

    fn op(x: Self, y: Self) -> (r: Self) {
        if x.0 <= y.0 {
            x
        } else {
            y
        }
    }

    fn id() -> (r: Self) {
        Min(<u32 as MaxValue>::max_value())
    }

    proof fn lemma_id_valid() {
    }

    proof fn lemma_closed(x: Self, y: Self) {
    }

    proof fn lemma_identity(x: Self) {
    }

    proof fn lemma_associative(x: Self, y: Self, z: Self) {
    }
}

impl Monoid for Min<u64> {
    open spec fn valid(self) -> bool {
        true
    }

    open spec fn op_spec(x: Self, y: Self) -> Self {
        if x.0 <= y.0 {
            x
        } else {
            y
        }
    }

    open spec fn id_spec() -> Self {
        Min(u64::MAX)
    }

    fn op(x: Self, y: Self) -> (r: Self) {
        if x.0 <= y.0 {
            x
        } else {
            y
        }
    }

    fn id() -> (r: Self) {
        Min(<u64 as MaxValue>::max_value())
    }

    proof fn lemma_id_valid() {
    }

    proof fn lemma_closed(x: Self, y: Self) {
    }

    proof fn lemma_identity(x: Self) {
    }

    proof fn lemma_associative(x: Self, y: Self, z: Self) {
    }
}

impl Monoid for Min<usize> {
    open spec fn valid(self) -> bool {
        true
    }

    open spec fn op_spec(x: Self, y: Self) -> Self {
        if x.0 <= y.0 {
            x
        } else {
            y
        }
    }

    open spec fn id_spec() -> Self {
        Min(usize::MAX)
    }

    fn op(x: Self, y: Self) -> (r: Self) {
        if x.0 <= y.0 {
            x
        } else {
            y
        }
    }

    fn id() -> (r: Self) {
        Min(<usize as MaxValue>::max_value())
    }

    proof fn lemma_id_valid() {
    }

    proof fn lemma_closed(x: Self, y: Self) {
    }

    proof fn lemma_identity(x: Self) {
    }

    proof fn lemma_associative(x: Self, y: Self, z: Self) {
    }
}

impl Monoid for Min<i8> {
    open spec fn valid(self) -> bool {
        true
    }

    open spec fn op_spec(x: Self, y: Self) -> Self {
        if x.0 <= y.0 {
            x
        } else {
            y
        }
    }

    open spec fn id_spec() -> Self {
        Min(i8::MAX)
    }

    fn op(x: Self, y: Self) -> (r: Self) {
        if x.0 <= y.0 {
            x
        } else {
            y
        }
    }

    fn id() -> (r: Self) {
        Min(<i8 as MaxValue>::max_value())
    }

    proof fn lemma_id_valid() {
    }

    proof fn lemma_closed(x: Self, y: Self) {
    }

    proof fn lemma_identity(x: Self) {
    }

    proof fn lemma_associative(x: Self, y: Self, z: Self) {
    }
}

impl Monoid for Min<i16> {
    open spec fn valid(self) -> bool {
        true
    }

    open spec fn op_spec(x: Self, y: Self) -> Self {
        if x.0 <= y.0 {
            x
        } else {
            y
        }
    }

    open spec fn id_spec() -> Self {
        Min(i16::MAX)
    }

    fn op(x: Self, y: Self) -> (r: Self) {
        if x.0 <= y.0 {
            x
        } else {
            y
        }
    }

    fn id() -> (r: Self) {
        Min(<i16 as MaxValue>::max_value())
    }

    proof fn lemma_id_valid() {
    }

    proof fn lemma_closed(x: Self, y: Self) {
    }

    proof fn lemma_identity(x: Self) {
    }

    proof fn lemma_associative(x: Self, y: Self, z: Self) {
    }
}

impl Monoid for Min<i32> {
    open spec fn valid(self) -> bool {
        true
    }

    open spec fn op_spec(x: Self, y: Self) -> Self {
        if x.0 <= y.0 {
            x
        } else {
            y
        }
    }

    open spec fn id_spec() -> Self {
        Min(i32::MAX)
    }

    fn op(x: Self, y: Self) -> (r: Self) {
        if x.0 <= y.0 {
            x
        } else {
            y
        }
    }

    fn id() -> (r: Self) {
        Min(<i32 as MaxValue>::max_value())
    }

    proof fn lemma_id_valid() {
    }

    proof fn lemma_closed(x: Self, y: Self) {
    }

    proof fn lemma_identity(x: Self) {
    }

    proof fn lemma_associative(x: Self, y: Self, z: Self) {
    }
}

impl Monoid for Min<i64> {
    open spec fn valid(self) -> bool {
        true
    }

    open spec fn op_spec(x: Self, y: Self) -> Self {
        if x.0 <= y.0 {
            x
        } else {
            y
        }
    }

    open spec fn id_spec() -> Self {
        Min(i64::MAX)
    }

    fn op(x: Self, y: Self) -> (r: Self) {
        if x.0 <= y.0 {
            x
        } else {
            y
        }
    }

    fn id() -> (r: Self) {
        Min(<i64 as MaxValue>::max_value())
    }

    proof fn lemma_id_valid() {
    }

    proof fn lemma_closed(x: Self, y: Self) {
    }

    proof fn lemma_identity(x: Self) {
    }

    proof fn lemma_associative(x: Self, y: Self, z: Self) {
    }
}

impl Monoid for Min<isize> {
    open spec fn valid(self) -> bool {
        true
    }

    open spec fn op_spec(x: Self, y: Self) -> Self {
        if x.0 <= y.0 {
            x
        } else {
            y
        }
    }

    open spec fn id_spec() -> Self {
        Min(isize::MAX)
    }

    fn op(x: Self, y: Self) -> (r: Self) {
        if x.0 <= y.0 {
            x
        } else {
            y
        }
    }

    fn id() -> (r: Self) {
        Min(<isize as MaxValue>::max_value())
    }

    proof fn lemma_id_valid() {
    }

    proof fn lemma_closed(x: Self, y: Self) {
    }

    proof fn lemma_identity(x: Self) {
    }

    proof fn lemma_associative(x: Self, y: Self, z: Self) {
    }
}

impl Monoid for Max<u8> {
    open spec fn valid(self) -> bool {
        true
    }

    open spec fn op_spec(x: Self, y: Self) -> Self {
        if x.0 >= y.0 {
            x
        } else {
            y
        }
    }

    open spec fn id_spec() -> Self {
        Max(u8::MIN)
    }

    fn op(x: Self, y: Self) -> (r: Self) {
        if x.0 >= y.0 {
            x
        } else {
            y
        }
    }

    fn id() -> (r: Self) {
        Max(<u8 as MinValue>::min_value())
    }

    proof fn lemma_id_valid() {
    }

    proof fn lemma_closed(x: Self, y: Self) {
    }

    proof fn lemma_identity(x: Self) {
    }

    proof fn lemma_associative(x: Self, y: Self, z: Self) {
    }
}

impl Monoid for Max<u16> {
    open spec fn valid(self) -> bool {
        true
    }

    open spec fn op_spec(x: Self, y: Self) -> Self {
        if x.0 >= y.0 {
            x
        } else {
            y
        }
    }

    open spec fn id_spec() -> Self {
        Max(u16::MIN)
    }

    fn op(x: Self, y: Self) -> (r: Self) {
        if x.0 >= y.0 {
            x
        } else {
            y
        }
    }

    fn id() -> (r: Self) {
        Max(<u16 as MinValue>::min_value())
    }

    proof fn lemma_id_valid() {
    }

    proof fn lemma_closed(x: Self, y: Self) {
    }

    proof fn lemma_identity(x: Self) {
    }

    proof fn lemma_associative(x: Self, y: Self, z: Self) {
    }
}

impl Monoid for Max<u32> {
    open spec fn valid(self) -> bool {
        true
    }

    open spec fn op_spec(x: Self, y: Self) -> Self {
        if x.0 >= y.0 {
            x
        } else {
            y
        }
    }

    open spec fn id_spec() -> Self {
        Max(u32::MIN)
    }

    fn op(x: Self, y: Self) -> (r: Self) {
        if x.0 >= y.0 {
            x
        } else {
            y
        }
    }

    fn id() -> (r: Self) {
        Max(<u32 as MinValue>::min_value())
    }

    proof fn lemma_id_valid() {
    }

    proof fn lemma_closed(x: Self, y: Self) {
    }

    proof fn lemma_identity(x: Self) {
    }

    proof fn lemma_associative(x: Self, y: Self, z: Self) {
    }
}

impl Monoid for Max<u64> {
    open spec fn valid(self) -> bool {
        true
    }

    open spec fn op_spec(x: Self, y: Self) -> Self {
        if x.0 >= y.0 {
            x
        } else {
            y
        }
    }

    open spec fn id_spec() -> Self {
        Max(u64::MIN)
    }

    fn op(x: Self, y: Self) -> (r: Self) {
        if x.0 >= y.0 {
            x
        } else {
            y
        }
    }

    fn id() -> (r: Self) {
        Max(<u64 as MinValue>::min_value())
    }

    proof fn lemma_id_valid() {
    }

    proof fn lemma_closed(x: Self, y: Self) {
    }

    proof fn lemma_identity(x: Self) {
    }

    proof fn lemma_associative(x: Self, y: Self, z: Self) {
    }
}

impl Monoid for Max<usize> {
    open spec fn valid(self) -> bool {
        true
    }

    open spec fn op_spec(x: Self, y: Self) -> Self {
        if x.0 >= y.0 {
            x
        } else {
            y
        }
    }

    open spec fn id_spec() -> Self {
        Max(usize::MIN)
    }

    fn op(x: Self, y: Self) -> (r: Self) {
        if x.0 >= y.0 {
            x
        } else {
            y
        }
    }

    fn id() -> (r: Self) {
        Max(<usize as MinValue>::min_value())
    }

    proof fn lemma_id_valid() {
    }

    proof fn lemma_closed(x: Self, y: Self) {
    }

    proof fn lemma_identity(x: Self) {
    }

    proof fn lemma_associative(x: Self, y: Self, z: Self) {
    }
}

impl Monoid for Max<i8> {
    open spec fn valid(self) -> bool {
        true
    }

    open spec fn op_spec(x: Self, y: Self) -> Self {
        if x.0 >= y.0 {
            x
        } else {
            y
        }
    }

    open spec fn id_spec() -> Self {
        Max(i8::MIN)
    }

    fn op(x: Self, y: Self) -> (r: Self) {
        if x.0 >= y.0 {
            x
        } else {
            y
        }
    }

    fn id() -> (r: Self) {
        Max(<i8 as MinValue>::min_value())
    }

    proof fn lemma_id_valid() {
    }

    proof fn lemma_closed(x: Self, y: Self) {
    }

    proof fn lemma_identity(x: Self) {
    }

    proof fn lemma_associative(x: Self, y: Self, z: Self) {
    }
}

impl Monoid for Max<i16> {
    open spec fn valid(self) -> bool {
        true
    }

    open spec fn op_spec(x: Self, y: Self) -> Self {
        if x.0 >= y.0 {
            x
        } else {
            y
        }
    }

    open spec fn id_spec() -> Self {
        Max(i16::MIN)
    }

    fn op(x: Self, y: Self) -> (r: Self) {
        if x.0 >= y.0 {
            x
        } else {
            y
        }
    }

    fn id() -> (r: Self) {
        Max(<i16 as MinValue>::min_value())
    }

    proof fn lemma_id_valid() {
    }

    proof fn lemma_closed(x: Self, y: Self) {
    }

    proof fn lemma_identity(x: Self) {
    }

    proof fn lemma_associative(x: Self, y: Self, z: Self) {
    }
}

impl Monoid for Max<i32> {
    open spec fn valid(self) -> bool {
        true
    }

    open spec fn op_spec(x: Self, y: Self) -> Self {
        if x.0 >= y.0 {
            x
        } else {
            y
        }
    }

    open spec fn id_spec() -> Self {
        Max(i32::MIN)
    }

    fn op(x: Self, y: Self) -> (r: Self) {
        if x.0 >= y.0 {
            x
        } else {
            y
        }
    }

    fn id() -> (r: Self) {
        Max(<i32 as MinValue>::min_value())
    }

    proof fn lemma_id_valid() {
    }

    proof fn lemma_closed(x: Self, y: Self) {
    }

    proof fn lemma_identity(x: Self) {
    }

    proof fn lemma_associative(x: Self, y: Self, z: Self) {
    }
}

impl Monoid for Max<i64> {
    open spec fn valid(self) -> bool {
        true
    }

    open spec fn op_spec(x: Self, y: Self) -> Self {
        if x.0 >= y.0 {
            x
        } else {
            y
        }
    }

    open spec fn id_spec() -> Self {
        Max(i64::MIN)
    }

    fn op(x: Self, y: Self) -> (r: Self) {
        if x.0 >= y.0 {
            x
        } else {
            y
        }
    }

    fn id() -> (r: Self) {
        Max(<i64 as MinValue>::min_value())
    }

    proof fn lemma_id_valid() {
    }

    proof fn lemma_closed(x: Self, y: Self) {
    }

    proof fn lemma_identity(x: Self) {
    }

    proof fn lemma_associative(x: Self, y: Self, z: Self) {
    }
}

impl Monoid for Max<isize> {
    open spec fn valid(self) -> bool {
        true
    }

    open spec fn op_spec(x: Self, y: Self) -> Self {
        if x.0 >= y.0 {
            x
        } else {
            y
        }
    }

    open spec fn id_spec() -> Self {
        Max(isize::MIN)
    }

    fn op(x: Self, y: Self) -> (r: Self) {
        if x.0 >= y.0 {
            x
        } else {
            y
        }
    }

    fn id() -> (r: Self) {
        Max(<isize as MinValue>::min_value())
    }

    proof fn lemma_id_valid() {
    }

    proof fn lemma_closed(x: Self, y: Self) {
    }

    proof fn lemma_identity(x: Self) {
    }

    proof fn lemma_associative(x: Self, y: Self, z: Self) {
    }
}

} // verus!
