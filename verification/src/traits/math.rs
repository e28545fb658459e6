//! Algebraic structures and graphs.

pub mod fold;
pub mod graph;
pub mod group;
pub mod monoid;
