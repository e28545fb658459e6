//! Collections.

pub mod counter;
