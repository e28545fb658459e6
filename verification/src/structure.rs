//! Data structures.

pub mod disjoint_sets;
pub mod graph;
pub mod segment_tree;
pub mod spanning;
pub mod undirected;
