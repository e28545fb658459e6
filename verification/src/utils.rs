//! Helpers shared by the data structures.

pub mod range;
