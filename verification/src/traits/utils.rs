//! Helper traits on numbers.

pub mod num;
