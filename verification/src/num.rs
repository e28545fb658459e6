//! Additive and multiplicative identities, and the traits of numbers.

use std::ops::{Add, Div, Mul, Rem, Sub};
use vstd::prelude::*;

verus! {

/// Types with an additive identity.
pub trait Zero: Sized + Add<Self, Output = Self> {
    /// The additive identity.
    spec fn zero_spec() -> Self;

    /// Returns the additive identity.
    fn zero() -> (r: Self)
        ensures
            r == Self::zero_spec(),
    ;

    /// Whether the value is the additive identity.
    fn is_zero(&self) -> (r: bool)
        ensures
            r == (*self == Self::zero_spec()),
    ;
}

/// Types with a multiplicative identity.
///
/// A type may have a one only under a condition on its parameters (a ring of
/// residues has none when the modulus is 1); `has_one` states that condition.
pub trait One: Sized + Mul<Self, Output = Self> {
    /// Whether the type has a multiplicative identity.
    spec fn has_one() -> bool;

    /// The multiplicative identity.
    spec fn one_spec() -> Self;

    /// Returns the multiplicative identity.
    fn one() -> (r: Self)
        requires
            Self::has_one(),
        ensures
            r == Self::one_spec(),
    ;
}

impl Zero for u8 {
    open spec fn zero_spec() -> u8 {
        0
    }

    fn zero() -> (r: u8) {
        0
    }

    fn is_zero(&self) -> (r: bool) {
        *self == 0
    }
}

impl One for u8 {
    open spec fn has_one() -> bool {
        true
    }

    open spec fn one_spec() -> u8 {
        1
    }

    fn one() -> (r: u8) {
        1
    }
}

impl Zero for u16 {
    open spec fn zero_spec() -> u16 {
        0
    }

    fn zero() -> (r: u16) {
        0
    }

    fn is_zero(&self) -> (r: bool) {
        *self == 0
    }
}

impl One for u16 {
    open spec fn has_one() -> bool {
        true
    }

    open spec fn one_spec() -> u16 {
        1
    }

    fn one() -> (r: u16) {
        1
    }
}

impl Zero for u32 {
    open spec fn zero_spec() -> u32 {
        0
    }

    fn zero() -> (r: u32) {
        0
    }

    fn is_zero(&self) -> (r: bool) {
        *self == 0
    }
}

impl One for u32 {
    open spec fn has_one() -> bool {
        true
    }

    open spec fn one_spec() -> u32 {
        1
    }

    fn one() -> (r: u32) {
        1
    }
}

impl Zero for u64 {
    open spec fn zero_spec() -> u64 {
        0
    }

    fn zero() -> (r: u64) {
        0
    }

    fn is_zero(&self) -> (r: bool) {
        *self == 0
    }
}

impl One for u64 {
    open spec fn has_one() -> bool {
        true
    }

    open spec fn one_spec() -> u64 {
        1
    }

    fn one() -> (r: u64) {
        1
    }
}

impl Zero for usize {
    open spec fn zero_spec() -> usize {
        0
    }

    fn zero() -> (r: usize) {
        0
    }

    fn is_zero(&self) -> (r: bool) {
        *self == 0
    }
}

impl One for usize {
    open spec fn has_one() -> bool {
        true
    }

    open spec fn one_spec() -> usize {
        1
    }

    fn one() -> (r: usize) {
        1
    }
}

impl Zero for i8 {
    open spec fn zero_spec() -> i8 {
        0
    }

    fn zero() -> (r: i8) {
        0
    }

    fn is_zero(&self) -> (r: bool) {
        *self == 0
    }
}

impl One for i8 {
    open spec fn has_one() -> bool {
        true
    }

    open spec fn one_spec() -> i8 {
        1
    }

    fn one() -> (r: i8) {
        1
    }
}

impl Zero for i16 {
    open spec fn zero_spec() -> i16 {
        0
    }

    fn zero() -> (r: i16) {
        0
    }

    fn is_zero(&self) -> (r: bool) {
        *self == 0
    }
}

impl One for i16 {
    open spec fn has_one() -> bool {
        true
    }

    open spec fn one_spec() -> i16 {
        1
    }

    fn one() -> (r: i16) {
        1
    }
}

impl Zero for i32 {
    open spec fn zero_spec() -> i32 {
        0
    }

    fn zero() -> (r: i32) {
        0
    }

    fn is_zero(&self) -> (r: bool) {
        *self == 0
    }
}

impl One for i32 {
    open spec fn has_one() -> bool {
        true
    }

    open spec fn one_spec() -> i32 {
        1
    }

    fn one() -> (r: i32) {
        1
    }
}

impl Zero for i64 {
    open spec fn zero_spec() -> i64 {
        0
    }

    fn zero() -> (r: i64) {
        0
    }

    fn is_zero(&self) -> (r: bool) {
        *self == 0
    }
}

impl One for i64 {
    open spec fn has_one() -> bool {
        true
    }

    open spec fn one_spec() -> i64 {
        1
    }

    fn one() -> (r: i64) {
        1
    }
}

impl Zero for isize {
    open spec fn zero_spec() -> isize {
        0
    }

    fn zero() -> (r: isize) {
        0
    }

    fn is_zero(&self) -> (r: bool) {
        *self == 0
    }
}

impl One for isize {
    open spec fn has_one() -> bool {
        true
    }

    open spec fn one_spec() -> isize {
        1
    }

    fn one() -> (r: isize) {
        1
    }
}

/// Types with the four basic operations of arithmetic and the remainder.
pub trait NumOps<Rhs = Self, Output = Self>: Add<Rhs, Output = Output> + Sub<Rhs, Output = Output> + Mul<
    Rhs,
    Output = Output,
> + Div<Rhs, Output = Output> + Rem<Rhs, Output = Output> {

}

/// Numbers: types with a zero, a one, the operations of arithmetic and a test
/// for equality.
pub trait Num: Zero + One + NumOps + PartialEq<Self> {

}

} // verus!
