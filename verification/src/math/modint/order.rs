//! The order of residues.

use crate::math::modint::consts::ModintConst;
use crate::math::modint::Modint;
use std::cmp::Ordering;
use vstd::prelude::*;
use vstd::std_specs::cmp::PartialOrdSpecImpl;

verus! {

impl<C: ModintConst> PartialOrd for Modint<C> {
    /// Compares two values by their residues.
    fn partial_cmp(&self, other: &Self) -> (r: Option<Ordering>) {
        let a = self.inner();
        let b = other.inner();
        if a < b {
            Some(Ordering::Less)
        } else if a > b {
            Some(Ordering::Greater)
        } else {
            Some(Ordering::Equal)
        }
    }
}

impl<C: ModintConst> PartialOrdSpecImpl for Modint<C> {
    open spec fn obeys_partial_cmp_spec() -> bool {
        true
    }

    open spec fn partial_cmp_spec(&self, other: &Self) -> Option<Ordering> {
        if self@ < other@ {
            Some(Ordering::Less)
        } else if self@ > other@ {
            Some(Ordering::Greater)
        } else {
            Some(Ordering::Equal)
        }
    }
}

} // verus!
