//! The mathematical objects that the algorithms of this crate are generic over.

pub mod math;
pub mod utils;
