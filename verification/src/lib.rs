//! Algebra-parameterised data structures for range and connectivity queries.
//!
//! The structures are generic over a monoid or a group, which supplies the
//! operation that a query folds over a range of elements:
//!
//! - [`structure::segment_tree`]: point updates and range queries over a
//!   monoid;
//! - [`math::sum`]: sums over ranges and rectangles from prefix sums over a
//!   group;
//! - [`structure::disjoint_sets`]: disjoint sets, also known as union-find;
//! - [`math::modint`]: integers reduced by a modulus;
//! - [`structure::graph`]: graphs as lists of edges and as adjacency lists, and
//!   the test whether an undirected graph is a tree.
//!
//! Every function states what it returns in its contract, and the laws that
//! relate several functions are proved as lemmas beside them.

pub mod collections;
pub mod math;
pub mod num;
pub mod structure;
pub mod token;
pub mod traits;
pub mod utils;
