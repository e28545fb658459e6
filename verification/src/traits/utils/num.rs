//! Largest and smallest values of the primitive integer types.

use vstd::prelude::*;

verus! {

/// Types with a largest value. Such a type can be wrapped in
/// [`Min`](crate::traits::math::monoid::Min), whose identity is that value.
pub trait MaxValue: Sized {
    /// The largest value of the type.
    spec fn max_value_spec() -> Self;

    /// Returns the largest value of the type.
    fn max_value() -> (r: Self)
        ensures
            r == Self::max_value_spec(),
    ;
}

/// Types with a smallest value. Such a type can be wrapped in
/// [`Max`](crate::traits::math::monoid::Max), whose identity is that value.
pub trait MinValue: Sized {
    /// The smallest value of the type.
    spec fn min_value_spec() -> Self;

    /// Returns the smallest value of the type.
    fn min_value() -> (r: Self)
        ensures
            r == Self::min_value_spec(),
    ;
}

impl MaxValue for u8 {
    open spec fn max_value_spec() -> u8 {
        u8::MAX
    }

    fn max_value() -> (r: u8) {
        u8::MAX
    }
}

impl MinValue for u8 {
    open spec fn min_value_spec() -> u8 {
        u8::MIN
    }

    fn min_value() -> (r: u8) {
        u8::MIN
    }
}

impl MaxValue for u16 {
    open spec fn max_value_spec() -> u16 {
        u16::MAX
    }

    fn max_value() -> (r: u16) {
        u16::MAX
    }
}

impl MinValue for u16 {
    open spec fn min_value_spec() -> u16 {
        u16::MIN
    }

    fn min_value() -> (r: u16) {
        u16::MIN
    }
}

impl MaxValue for u32 {
    open spec fn max_value_spec() -> u32 {
        u32::MAX
    }

    fn max_value() -> (r: u32) {
        u32::MAX
    }
}

impl MinValue for u32 {
    open spec fn min_value_spec() -> u32 {
        u32::MIN
    }

    fn min_value() -> (r: u32) {
        u32::MIN
    }
}

impl MaxValue for u64 {
    open spec fn max_value_spec() -> u64 {
        u64::MAX
    }

    fn max_value() -> (r: u64) {
        u64::MAX
    }
}

impl MinValue for u64 {
    open spec fn min_value_spec() -> u64 {
        u64::MIN
    }

    fn min_value() -> (r: u64) {
        u64::MIN
    }
}

impl MaxValue for usize {
    open spec fn max_value_spec() -> usize {
        usize::MAX
    }

    fn max_value() -> (r: usize) {
        usize::MAX
    }
}

impl MinValue for usize {
    open spec fn min_value_spec() -> usize {
        usize::MIN
    }

    fn min_value() -> (r: usize) {
        usize::MIN
    }
}

impl MaxValue for i8 {
    open spec fn max_value_spec() -> i8 {
        i8::MAX
    }

    fn max_value() -> (r: i8) {
        i8::MAX
    }
}

impl MinValue for i8 {
    open spec fn min_value_spec() -> i8 {
        i8::MIN
    }

    fn min_value() -> (r: i8) {
        i8::MIN
    }
}

impl MaxValue for i16 {
    open spec fn max_value_spec() -> i16 {
        i16::MAX
    }

    fn max_value() -> (r: i16) {
        i16::MAX
    }
}

impl MinValue for i16 {
    open spec fn min_value_spec() -> i16 {
        i16::MIN
    }

    fn min_value() -> (r: i16) {
        i16::MIN
    }
}

impl MaxValue for i32 {
    open spec fn max_value_spec() -> i32 {
        i32::MAX
    }

    fn max_value() -> (r: i32) {
        i32::MAX
    }
}

impl MinValue for i32 {
    open spec fn min_value_spec() -> i32 {
        i32::MIN
    }

    fn min_value() -> (r: i32) {
        i32::MIN
    }
}

impl MaxValue for i64 {
    open spec fn max_value_spec() -> i64 {
        i64::MAX
    }

    fn max_value() -> (r: i64) {
        i64::MAX
    }
}

impl MinValue for i64 {
    open spec fn min_value_spec() -> i64 {
        i64::MIN
    }

    fn min_value() -> (r: i64) {
        i64::MIN
    }
}

impl MaxValue for isize {
    open spec fn max_value_spec() -> isize {
        isize::MAX
    }

    fn max_value() -> (r: isize) {
        isize::MAX
    }
}

impl MinValue for isize {
    open spec fn min_value_spec() -> isize {
        isize::MIN
    }

    fn min_value() -> (r: isize) {
        isize::MIN
    }
}

} // verus!
