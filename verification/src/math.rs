//! Mathematical algorithms.

pub mod modint;
pub mod sum;
