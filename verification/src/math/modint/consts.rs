//! The moduli of [`Modint`](crate::math::modint::Modint).

use vstd::prelude::*;

verus! {

/// The integer type that a `Modint` computes with.
pub type ModintInnerType = i64;

/// Whether `m` can be the modulus of a `Modint`: it is positive, and the
/// product of two residues fits the inner type.
pub open spec fn valid_modulus(m: int) -> bool {
    0 < m <= 3_037_000_500
}

/// A type that stands for a modulus.
///
/// A modulus is a constant of a type of its own, so that residues of
/// different moduli are values of different types:
///
/// ```text
/// pub struct MOD11;
/// impl ModintConst for MOD11 {
///     const MOD: ModintInnerType = 11;
/// }
/// type M11 = Modint<MOD11>;
/// ```
pub trait ModintConst {
    /// The modulus.
    const MOD: ModintInnerType;

    /// The modulus is a valid one.
    proof fn lemma_modulus()
        ensures
            valid_modulus(Self::MOD as int),
    ;
}

/// The modulus 1e9+7.
#[derive(Debug)]
pub struct MOD17;

impl ModintConst for MOD17 {
    const MOD: ModintInnerType = 1_000_000_007;

    proof fn lemma_modulus() {
    }
}

/// The modulus of [`MOD17`] is 1e9+7, a prime number.
pub proof fn lemma_mod17()
    ensures
        MOD17::MOD == 1_000_000_007,
{
}

} // verus!
