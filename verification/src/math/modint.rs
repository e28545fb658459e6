//! `Modint`, an integer that is always reduced by a modulus.
//!
//! The modulus is given by a type that implements
//! [`ModintConst`](consts::ModintConst). [`MOD17`] is the modulus 1e9+7, and
//! [`Modint17`] the integers reduced by it.

pub mod consts;
pub mod order;

use crate::math::modint::consts::{valid_modulus, ModintConst};
pub use crate::math::modint::consts::{ModintInnerType, MOD17};
use crate::num::{Num, NumOps, One, Zero};
use crate::traits::math::group::{is_commutative, Additive, Group};
use crate::traits::math::monoid::Monoid;
use std::marker::PhantomData;
use std::ops::{Add, AddAssign, Div, DivAssign, Mul, MulAssign, Neg, Rem, RemAssign, Sub, SubAssign};
use vstd::arithmetic::div_mod::{
    lemma_add_mod_noop, lemma_add_mod_noop_right, lemma_fundamental_div_mod, lemma_fundamental_div_mod_converse,
    lemma_mod_bound, lemma_mod_multiples_basic, lemma_mod_multiples_vanish, lemma_mod_self_0, lemma_mod_twice,
    lemma_mul_mod_noop_right, lemma_small_mod,
};
use vstd::prelude::*;
use vstd::std_specs::cmp::PartialEqSpecImpl;
use vstd::std_specs::ops::{
    AddSpec, AddSpecImpl, DivSpec, DivSpecImpl, MulSpec, MulSpecImpl, NegSpec, NegSpecImpl, RemSpec, RemSpecImpl,
    SubSpec, SubSpecImpl,
};

verus! {

/// The integers reduced by 1e9+7.
pub type Modint17 = Modint<MOD17>;

/// The greatest common divisor of two numbers that are not negative.
pub open spec fn gcd(a: int, b: int) -> int
    decreases b,
{
    if b <= 0 {
        a
    } else {
        proof {
            lemma_mod_bound(a, b);
        }
        gcd(b, a % b)
    }
}

/// The coefficient that the extended algorithm of Euclid computes.
///
/// The algorithm starts from the pair `(a, m)` and replaces it by
/// `(m, a % m)` until `m` is 0. Beside it runs the pair `(u, v)`, which starts
/// from `(1, 0)` and is replaced by `(v, u - (a / m) * v)`. In the end `a` is
/// the greatest common divisor of the two numbers, and `u` the coefficient.
pub open spec fn euclid_coeff(a: int, m: int, u: int, v: int) -> int
    decreases m,
{
    if m <= 0 {
        u
    } else {
        proof {
            lemma_mod_bound(a, m);
        }
        euclid_coeff(m, a % m, v, u - (a / m) * v)
    }
}

/// Whether `p` is a prime number.
pub open spec fn is_prime(p: int) -> bool {
    &&& p >= 2
    &&& forall|d: int| 1 < d < p ==> #[trigger] (p % d) != 0
}

/// An integer that is always reduced by the modulus `C`.
///
/// Two values are equal, and one is less than the other, as their residues
/// are; the hash of a value is that of its residue.
#[derive(Debug, Ord, Hash)]
pub struct Modint<C: ModintConst> {
    value: ModintInnerType,
    marker: PhantomData<C>,
}

impl<C: ModintConst> View for Modint<C> {
    type V = int;

    /// The residue, as a number.
    closed spec fn view(&self) -> int {
        self.value as int
    }
}

impl<C: ModintConst> Clone for Modint<C> {
    fn clone(&self) -> (r: Self)
        ensures
            r == *self,
    {
        *self
    }
}

impl<C: ModintConst> Copy for Modint<C> {

}

impl<C: ModintConst> Modint<C> {
    /// The modulus.
    pub open spec fn modulus() -> int {
        C::MOD as int
    }

    /// The invariant of the type: the residue is not negative and less than
    /// the modulus.
    #[verifier::type_invariant]
    pub closed spec fn wf(self) -> bool {
        0 <= self.value < C::MOD
    }

    /// The residue of `v`.
    pub closed spec fn residue(v: int) -> Self {
        Modint { value: (v % (C::MOD as int)) as ModintInnerType, marker: PhantomData }
    }

    /// The residue of a number is well-formed and is that number reduced by
    /// the modulus; a well-formed value is the residue of its own number.
    pub proof fn lemma_residue(v: int)
        ensures
            Self::residue(v).wf(),
            Self::residue(v)@ == v % Self::modulus(),
            0 <= Self::residue(v)@ < Self::modulus(),
            Self::residue(Self::residue(v)@) == Self::residue(v),
    {
        C::lemma_modulus();
        lemma_mod_bound(v, C::MOD as int);
        lemma_mod_twice(v, C::MOD as int);
    }

    /// A well-formed value is the residue of its own number, which is not
    /// negative and less than the modulus.
    pub proof fn lemma_wf(self)
        requires
            self.wf(),
        ensures
            0 <= self@ < Self::modulus(),
            Self::residue(self@) == self,
    {
        C::lemma_modulus();
        lemma_small_mod(self.value as nat, C::MOD as nat);
    }

    /// Makes the value with the residue `value`, which must be reduced
    /// already.
    pub fn new_unchecked(value: ModintInnerType) -> (r: Modint<C>)
        requires
            0 <= value < Self::modulus(),
        ensures
            r.wf(),
            r@ == value,
    {
        Modint { value, marker: PhantomData }
    }

    /// Returns the residue.
    pub fn inner(self) -> (v: ModintInnerType)
        ensures
            v == self@,
            self.wf(),
    {
        proof {
            use_type_invariant(&self);
        }
        self.value
    }

    /// Makes the residue of `value`: the number in `0..MOD` that differs from
    /// `value` by a multiple of the modulus.
    pub fn new(value: ModintInnerType) -> (r: Modint<C>)
        ensures
            r == Self::residue(value as int),
            r.wf(),
            r@ == value as int % Self::modulus(),
    {
        proof {
            C::lemma_modulus();
        }
        let m = C::MOD;
        let rem = value % m;
        let reduced = if rem < 0 {
            rem + m
        } else {
            rem
        };
        proof {
            let x = value as int;
            let d = m as int;
            if value < 0 {
                let q = (-x) / d;
                let t = (-x) % d;
                lemma_fundamental_div_mod(-x, d);
                lemma_mod_bound(-x, d);
                assert(d * q == q * d) by (nonlinear_arith);
                if t == 0 {
                    assert(x == (-q) * d + 0) by (nonlinear_arith)
                        requires
                            -x == q * d + t,
                            t == 0,
                    ;
                    lemma_fundamental_div_mod_converse(x, d, -q, 0);
                } else {
                    assert(x == (-q - 1) * d + (d - t)) by (nonlinear_arith)
                        requires
                            -x == q * d + t,
                    ;
                    lemma_fundamental_div_mod_converse(x, d, -q - 1, d - t);
                }
            }
            assert(reduced == x % d);
        }
        Modint { value: reduced, marker: PhantomData }
    }

    /// The inverse of a value: the residue of the coefficient that the
    /// extended algorithm of Euclid computes for the value and the modulus.
    pub open spec fn inv_spec(self) -> Self {
        Self::residue(euclid_coeff(self@, Self::modulus(), 1, 0))
    }

    /// Returns the inverse of the value, which must not be zero.
    ///
    /// The product of a value and its inverse is the greatest common divisor
    /// of the value and the modulus: 1 where the modulus is a prime number.
    pub fn inv(self) -> (r: Modint<C>)
        requires
            self@ != 0,
        ensures
            r == self.inv_spec(),
            r.wf(),
    {
        proof {
            use_type_invariant(&self);
            C::lemma_modulus();
        }
        let ghost p = C::MOD as int;
        let mut modulus: ModintInnerType = C::MOD;
        let mut a: ModintInnerType = self.value;
        let mut u: ModintInnerType = 1;
        let mut v: ModintInnerType = 0;
        while modulus > 0
            invariant
                valid_modulus(p),
                0 <= modulus <= p,
                0 < a <= p,
                (u >= 0 && v <= 0 && u * modulus - v * a == p) || (u <= 0 && v >= 0 && v * a - u
                    * modulus == p),
                -p <= u <= p,
                -p <= v <= p,
                euclid_coeff(a as int, modulus as int, u as int, v as int) == euclid_coeff(
                    self@,
                    p,
                    1,
                    0,
                ),
            decreases modulus,
        {
            let t = a / modulus;
            proof {
                lemma_fundamental_div_mod(a as int, modulus as int);
                lemma_mod_bound(a as int, modulus as int);
                lemma_euclid_step(a as int, modulus as int, u as int, v as int, p);
            }
            let rest = a - t * modulus;
            let next = u - t * v;
            a = modulus;
            modulus = rest;
            u = v;
            v = next;
        }
        Modint::new(u)
    }
}

impl<C: ModintConst> PartialEq for Modint<C> {
    fn eq(&self, other: &Self) -> (r: bool) {
        self.value == other.value
    }
}

impl<C: ModintConst> PartialEqSpecImpl for Modint<C> {
    open spec fn obeys_eq_spec() -> bool {
        true
    }

    open spec fn eq_spec(&self, other: &Self) -> bool {
        self@ == other@
    }
}

impl<C: ModintConst> Eq for Modint<C> {

}

impl<C: ModintConst> AddSpecImpl for Modint<C> {
    open spec fn obeys_add_spec() -> bool {
        true
    }

    open spec fn add_req(self, rhs: Modint<C>) -> bool {
        true
    }

    open spec fn add_spec(self, rhs: Modint<C>) -> Modint<C> {
        Self::residue(self@ + rhs@)
    }
}

impl<C: ModintConst> Add for Modint<C> {
    type Output = Modint<C>;

    fn add(self, rhs: Modint<C>) -> (r: Modint<C>)
        ensures
            r.wf(),
    {
        proof {
            use_type_invariant(&self);
            use_type_invariant(&rhs);
            C::lemma_modulus();
        }
        let mut value = self.value + rhs.value;
        if value >= C::MOD {
            value -= C::MOD;
        }
        proof {
            let p = C::MOD as int;
            let sum = self.value + rhs.value;
            if sum >= p {
                lemma_fundamental_div_mod_converse(sum, p, 1, sum - p);
            } else {
                lemma_small_mod(sum as nat, p as nat);
            }
        }
        Modint { value, marker: PhantomData }
    }
}

impl<C: ModintConst> AddAssign for Modint<C> {
    fn add_assign(&mut self, rhs: Modint<C>)
        ensures
            *final(self) == AddSpec::add_spec(*old(self), rhs),
    {
        *self = *self + rhs;
    }
}

impl<C: ModintConst> SubSpecImpl for Modint<C> {
    open spec fn obeys_sub_spec() -> bool {
        true
    }

    open spec fn sub_req(self, rhs: Modint<C>) -> bool {
        true
    }

    open spec fn sub_spec(self, rhs: Modint<C>) -> Modint<C> {
        Self::residue(self@ - rhs@)
    }
}

impl<C: ModintConst> Sub for Modint<C> {
    type Output = Modint<C>;

    fn sub(self, rhs: Modint<C>) -> (r: Modint<C>)
        ensures
            r.wf(),
    {
        proof {
            use_type_invariant(&self);
            use_type_invariant(&rhs);
            C::lemma_modulus();
        }
        let mut value = self.value - rhs.value;
        if value < 0 {
            value += C::MOD;
        }
        proof {
            let p = C::MOD as int;
            let diff = self.value - rhs.value;
            if diff < 0 {
                lemma_fundamental_div_mod_converse(diff, p, -1, diff + p);
            } else {
                lemma_small_mod(diff as nat, p as nat);
            }
        }
        Modint { value, marker: PhantomData }
    }
}

impl<C: ModintConst> SubAssign for Modint<C> {
    fn sub_assign(&mut self, rhs: Modint<C>)
        ensures
            *final(self) == SubSpec::sub_spec(*old(self), rhs),
    {
        *self = *self - rhs;
    }
}

impl<C: ModintConst> MulSpecImpl for Modint<C> {
    open spec fn obeys_mul_spec() -> bool {
        true
    }

    open spec fn mul_req(self, rhs: Modint<C>) -> bool {
        true
    }

    open spec fn mul_spec(self, rhs: Modint<C>) -> Modint<C> {
        Self::residue(self@ * rhs@)
    }
}

impl<C: ModintConst> Mul for Modint<C> {
    type Output = Modint<C>;

    fn mul(self, rhs: Modint<C>) -> (r: Modint<C>)
        ensures
            r.wf(),
    {
        proof {
            use_type_invariant(&self);
            use_type_invariant(&rhs);
            C::lemma_modulus();
            let p = C::MOD as int;
            let x = self.value as int;
            let y = rhs.value as int;
            assert(0 <= x * y <= 3_037_000_499 * 3_037_000_499) by (nonlinear_arith)
                requires
                    0 <= x <= 3_037_000_499,
                    0 <= y <= 3_037_000_499,
            ;
            lemma_mod_bound(x * y, p);
        }
        let value = self.value * rhs.value % C::MOD;
        Modint { value, marker: PhantomData }
    }
}

impl<C: ModintConst> MulAssign for Modint<C> {
    fn mul_assign(&mut self, rhs: Modint<C>)
        ensures
            *final(self) == MulSpec::mul_spec(*old(self), rhs),
    {
        *self = *self * rhs;
    }
}

impl<C: ModintConst> DivSpecImpl for Modint<C> {
    open spec fn obeys_div_spec() -> bool {
        true
    }

    open spec fn div_req(self, rhs: Modint<C>) -> bool {
        rhs@ != 0
    }

    open spec fn div_spec(self, rhs: Modint<C>) -> Modint<C> {
        MulSpec::mul_spec(self, rhs.inv_spec())
    }
}

impl<C: ModintConst> Div for Modint<C> {
    type Output = Modint<C>;

    /// Divides by `rhs`, which must not be zero: multiplies by its inverse.
    fn div(self, rhs: Modint<C>) -> (r: Modint<C>)
        ensures
            r.wf(),
    {
        self * rhs.inv()
    }
}

impl<C: ModintConst> DivAssign for Modint<C> {
    fn div_assign(&mut self, rhs: Modint<C>)
        requires
            rhs@ != 0,
        ensures
            *final(self) == DivSpec::div_spec(*old(self), rhs),
    {
        *self = *self / rhs;
    }
}

impl<C: ModintConst> RemSpecImpl for Modint<C> {
    open spec fn obeys_rem_spec() -> bool {
        true
    }

    open spec fn rem_req(self, rhs: Modint<C>) -> bool {
        rhs@ != 0
    }

    open spec fn rem_spec(self, rhs: Modint<C>) -> Modint<C> {
        Self::residue(self@ % rhs@)
    }
}

impl<C: ModintConst> Rem for Modint<C> {
    type Output = Modint<C>;

    /// The remainder of the residue on division by the residue of `rhs`, which
    /// must not be zero.
    fn rem(self, rhs: Modint<C>) -> (r: Modint<C>)
        ensures
            r.wf(),
    {
        proof {
            use_type_invariant(&self);
            use_type_invariant(&rhs);
            C::lemma_modulus();
            lemma_mod_bound(self.value as int, rhs.value as int);
            lemma_small_mod((self.value as int % rhs.value as int) as nat, C::MOD as nat);
        }
        let value = self.value % rhs.value;
        Modint { value, marker: PhantomData }
    }
}

impl<C: ModintConst> RemAssign for Modint<C> {
    fn rem_assign(&mut self, rhs: Modint<C>)
        requires
            rhs@ != 0,
        ensures
            *final(self) == RemSpec::rem_spec(*old(self), rhs),
    {
        *self = *self % rhs;
    }
}

impl<C: ModintConst> NegSpecImpl for Modint<C> {
    open spec fn obeys_neg_spec() -> bool {
        true
    }

    open spec fn neg_req(self) -> bool {
        true
    }

    open spec fn neg_spec(self) -> Modint<C> {
        Self::residue(-self@)
    }
}

impl<C: ModintConst> Neg for Modint<C> {
    type Output = Modint<C>;

    fn neg(self) -> (r: Modint<C>)
        ensures
            r.wf(),
    {
        proof {
            Self::lemma_residue(0);
            C::lemma_modulus();
            lemma_small_mod(0, C::MOD as nat);
        }
        <Self as Zero>::zero() - self
    }
}

impl<C: ModintConst> Zero for Modint<C> {
    open spec fn zero_spec() -> Self {
        Self::residue(0)
    }

    fn zero() -> (r: Self)
        ensures
            r.wf(),
    {
        proof {
            C::lemma_modulus();
            lemma_small_mod(0, C::MOD as nat);
        }
        Modint::new_unchecked(0)
    }

    fn is_zero(&self) -> (r: bool) {
        proof {
            C::lemma_modulus();
            lemma_small_mod(0, C::MOD as nat);
        }
        self.value == 0
    }
}

impl<C: ModintConst> One for Modint<C> {
    open spec fn has_one() -> bool {
        Self::modulus() != 1
    }

    open spec fn one_spec() -> Self {
        Self::residue(1)
    }

    fn one() -> (r: Self)
        ensures
            r.wf(),
    {
        proof {
            C::lemma_modulus();
            lemma_small_mod(1, C::MOD as nat);
        }
        Modint::new_unchecked(1)
    }
}

impl<C: ModintConst> NumOps for Modint<C> {

}

impl<C: ModintConst> Num for Modint<C> {

}

impl<C: ModintConst> Modint<C> {
    /// The sum of a sequence of values.
    pub open spec fn sum_spec(values: Seq<Modint<C>>) -> Modint<C>
        decreases values.len(),
    {
        if values.len() == 0 {
            Self::residue(0)
        } else {
            AddSpec::add_spec(Self::sum_spec(values.drop_last()), values.last())
        }
    }

    /// The product of a sequence of values.
    pub open spec fn product_spec(values: Seq<Modint<C>>) -> Modint<C>
        decreases values.len(),
    {
        if values.len() == 0 {
            Self::residue(1)
        } else {
            MulSpec::mul_spec(Self::product_spec(values.drop_last()), values.last())
        }
    }

    /// Returns the sum of the values.
    pub fn sum(values: &[Modint<C>]) -> (r: Modint<C>)
        ensures
            r == Self::sum_spec(values@),
    {
        let mut total = <Self as Zero>::zero();
        let mut i: usize = 0;
        while i < values.len()
            invariant
                i <= values@.len(),
                total == Self::sum_spec(values@.take(i as int)),
            decreases values@.len() - i,
        {
            proof {
                assert(values@.take(i + 1).drop_last() == values@.take(i as int));
            }
            total = total + values[i];
            i += 1;
        }
        proof {
            assert(values@.take(values@.len() as int) == values@);
        }
        total
    }

    /// Returns the product of the values. The modulus must not be 1.
    pub fn product(values: &[Modint<C>]) -> (r: Modint<C>)
        requires
            Self::modulus() != 1,
        ensures
            r == Self::product_spec(values@),
    {
        let mut total = <Self as One>::one();
        let mut i: usize = 0;
        while i < values.len()
            invariant
                i <= values@.len(),
                total == Self::product_spec(values@.take(i as int)),
            decreases values@.len() - i,
        {
            proof {
                assert(values@.take(i + 1).drop_last() == values@.take(i as int));
            }
            total = total * values[i];
            i += 1;
        }
        proof {
            assert(values@.take(values@.len() as int) == values@);
        }
        total
    }

    /// A value and its negative add up to zero.
    pub proof fn lemma_add_neg(self)
        ensures
            AddSpec::add_spec(self, NegSpec::neg_spec(self)) == Self::residue(0),
    {
        C::lemma_modulus();
        Self::lemma_residue(-self@);
        lemma_add_mod_noop_right(self@, -self@, C::MOD as int);
    }

    /// The product of a value and its inverse is the residue of the greatest
    /// common divisor of the value and the modulus.
    pub proof fn lemma_mul_inv_gcd(self)
        requires
            self.wf(),
        ensures
            MulSpec::mul_spec(self, self.inv_spec()) == Self::residue(gcd(self@, Self::modulus())),
    {
        C::lemma_modulus();
        let p = C::MOD as int;
        let c = euclid_coeff(self@, p, 1, 0);
        let k = lemma_euclid_coeff(self@, p, 1, 0, self@, p, 0, 1);
        let g = gcd(self@, p);
        Self::lemma_residue(c);
        lemma_mul_mod_noop_right(self@, c, p);
        assert(self@ * c == p * (-k) + g) by (nonlinear_arith)
            requires
                c * self@ + k * p == g,
        ;
        lemma_mod_multiples_vanish(-k, g, p);
    }

    /// Where the modulus is a prime number, the product of a value that is
    /// not zero and its inverse is one.
    pub proof fn lemma_mul_inv(self)
        requires
            self.wf(),
            self@ != 0,
            is_prime(Self::modulus()),
        ensures
            MulSpec::mul_spec(self, self.inv_spec()) == Self::residue(1),
    {
        self.lemma_mul_inv_gcd();
        lemma_gcd_prime(self@, C::MOD as int);
    }
}

/// The coefficient that the extended algorithm of Euclid computes for `a0` and
/// `p` turns `a0` into the greatest common divisor, up to a multiple of `p`.
///
/// The algorithm keeps two numbers `ku` and `kv` with
/// `u * a0 + ku * p == a` and `v * a0 + kv * p == m`; the result is the
/// number that belongs to the coefficient in the end.
proof fn lemma_euclid_coeff(a: int, m: int, u: int, v: int, a0: int, p: int, ku: int, kv: int) -> (k: int)
    requires
        0 <= a,
        0 <= m,
        u * a0 + ku * p == a,
        v * a0 + kv * p == m,
    ensures
        euclid_coeff(a, m, u, v) * a0 + k * p == gcd(a, m),
    decreases m,
{
    if m <= 0 {
        ku
    } else {
        let t = a / m;
        lemma_fundamental_div_mod(a, m);
        lemma_mod_bound(a, m);
        assert((u - t * v) * a0 == u * a0 - t * (v * a0)) by (nonlinear_arith);
        assert((ku - t * kv) * p == ku * p - t * (kv * p)) by (nonlinear_arith);
        assert(t * (v * a0) + t * (kv * p) == m * t) by (nonlinear_arith)
            requires
                v * a0 + kv * p == m,
        ;
        lemma_euclid_coeff(m, a % m, v, u - t * v, a0, p, kv, ku - t * kv)
    }
}

/// The greatest common divisor of two numbers, not both zero, is positive
/// and divides both.
pub proof fn lemma_gcd_divides(a: int, b: int)
    requires
        0 <= a,
        0 <= b,
        a > 0 || b > 0,
    ensures
        gcd(a, b) > 0,
        a % gcd(a, b) == 0,
        b % gcd(a, b) == 0,
    decreases b,
{
    if b <= 0 {
        lemma_mod_self_0(a);
        lemma_small_mod(0, a as nat);
    } else {
        lemma_mod_bound(a, b);
        lemma_gcd_divides(b, a % b);
        let g = gcd(a, b);
        let q = a / b;
        let r = a % b;
        lemma_fundamental_div_mod(a, b);
        lemma_fundamental_div_mod(b, g);
        assert(b * q == ((b / g) * q) * g) by (nonlinear_arith)
            requires
                b == g * (b / g) + 0,
        ;
        lemma_mod_multiples_basic((b / g) * q, g);
        lemma_add_mod_noop(b * q, r, g);
        lemma_small_mod(0, g as nat);
    }
}

/// A prime number has no divisor in common with a positive number below it.
pub proof fn lemma_gcd_prime(a: int, p: int)
    requires
        is_prime(p),
        0 < a < p,
    ensures
        gcd(a, p) == 1,
{
    lemma_gcd_divides(a, p);
    let g = gcd(a, p);
    if g > a {
        lemma_small_mod(a as nat, g as nat);
    }
    if g > 1 {
        assert(p % g != 0);
    }
}

impl<C: ModintConst> Monoid for Additive<Modint<C>> {
    open spec fn valid(self) -> bool {
        self.0.wf()
    }

    open spec fn op_spec(x: Self, y: Self) -> Self {
        Additive(AddSpec::add_spec(x.0, y.0))
    }

    open spec fn id_spec() -> Self {
        Additive(Modint::<C>::residue(0))
    }

    fn op(x: Self, y: Self) -> (r: Self) {
        Additive(x.0 + y.0)
    }

    fn id() -> (r: Self) {
        Additive(<Modint<C> as Zero>::zero())
    }

    proof fn lemma_id_valid() {
        Modint::<C>::lemma_residue(0);
    }

    proof fn lemma_closed(x: Self, y: Self) {
        Modint::<C>::lemma_residue(x.0@ + y.0@);
    }

    proof fn lemma_identity(x: Self) {
        C::lemma_modulus();
        Modint::<C>::lemma_residue(0);
        lemma_small_mod(0, C::MOD as nat);
        x.0.lemma_wf();
    }

    proof fn lemma_associative(x: Self, y: Self, z: Self) {
        C::lemma_modulus();
        let p = C::MOD as int;
        Modint::<C>::lemma_residue(x.0@ + y.0@);
        Modint::<C>::lemma_residue(y.0@ + z.0@);
        lemma_add_mod_noop_right(z.0@, x.0@ + y.0@, p);
        lemma_add_mod_noop_right(x.0@, y.0@ + z.0@, p);
    }
}

impl<C: ModintConst> Group for Additive<Modint<C>> {
    open spec fn inv_spec(x: Self) -> Self {
        Additive(NegSpec::neg_spec(x.0))
    }

    fn inv(x: Self) -> (r: Self) {
        Additive(x.0.neg())
    }

    proof fn lemma_inverse(x: Self) {
        C::lemma_modulus();
        let p = C::MOD as int;
        Modint::<C>::lemma_residue(-x.0@);
        lemma_add_mod_noop_right(x.0@, -x.0@, p);
        lemma_add_mod_noop_right(-x.0@, x.0@, p);
        x.0.lemma_wf();
        Modint::<C>::lemma_residue(x.0@);
    }
}

/// Addition of residues commutes.
pub proof fn lemma_additive_modint_commutative<C: ModintConst>()
    ensures
        is_commutative::<Additive<Modint<C>>>(),
{
    assert forall|x: Additive<Modint<C>>, y: Additive<Modint<C>>|
        x.valid() && y.valid() implies #[trigger] Additive::<Modint<C>>::op_spec(x, y) == Additive::<
        Modint<C>,
    >::op_spec(y, x) by {
        assert(x.0@ + y.0@ == y.0@ + x.0@);
    }
}

/// One step of the extended algorithm of Euclid keeps the two coefficients
/// of opposite sign and small.
proof fn lemma_euclid_step(a: int, m: int, u: int, v: int, p: int)
    requires
        0 < m,
        0 < a,
        0 < p,
        (u >= 0 && v <= 0 && u * m - v * a == p) || (u <= 0 && v >= 0 && v * a - u * m == p),
    ensures
        0 <= (a / m) * m <= a,
        a - (a / m) * m == a % m,
        -p <= (a / m) * v <= p,
        -p <= u - (a / m) * v <= p,
        (v >= 0 && u - (a / m) * v <= 0 && v * (a % m) - (u - (a / m) * v) * m == p) || (v <= 0 && u
            - (a / m) * v >= 0 && (u - (a / m) * v) * m - v * (a % m) == p),
{
    let t = a / m;
    let r = a % m;
    lemma_fundamental_div_mod(a, m);
    lemma_mod_bound(a, m);
    assert(t >= 0 && t <= a && t * m == m * t) by (nonlinear_arith)
        requires
            a == m * t + r,
            0 <= r < m,
            0 < a,
            0 < m,
    ;
    assert((t * v) * m == v * (m * t)) by (nonlinear_arith);
    assert(v * a == v * (m * t) + v * r) by (nonlinear_arith)
        requires
            a == m * t + r,
    ;
    assert((u - t * v) * m == u * m - (t * v) * m) by (nonlinear_arith);
    assert(t * (-v) == -(t * v) && (-v) * a == -(v * a) && (-u) * m == -(u * m)) by (nonlinear_arith);
    if u >= 0 && v <= 0 && u * m - v * a == p {
        lemma_euclid_bounds(a, m, u, -v, p, t, r);
    } else {
        lemma_euclid_bounds(a, m, -u, v, p, t, r);
    }
}

/// The bounds behind one step of the extended algorithm of Euclid, on the
/// absolute values `x` and `y` of the two coefficients.
proof fn lemma_euclid_bounds(a: int, m: int, x: int, y: int, p: int, t: int, r: int)
    requires
        0 < m,
        0 < a,
        0 <= x,
        0 <= y,
        0 <= t <= a,
        0 <= r,
        a == m * t + r,
        x * m + y * a == p,
    ensures
        0 <= t * y <= p,
        0 <= x + t * y <= p,
{
    assert(0 <= x * m && x <= x * m) by (nonlinear_arith)
        requires
            0 <= x,
            1 <= m,
    ;
    assert(0 <= t * y && t * y <= y * a) by (nonlinear_arith)
        requires
            0 <= t <= a,
            0 <= y,
    ;
    assert((x + t * y) * m == x * m + (t * y) * m) by (nonlinear_arith);
    assert((t * y) * m == y * (m * t)) by (nonlinear_arith);
    assert(y * a == y * (m * t) + y * r) by (nonlinear_arith)
        requires
            a == m * t + r,
    ;
    assert(0 <= y * r) by (nonlinear_arith)
        requires
            0 <= y,
            0 <= r,
    ;
    assert(x + t * y <= (x + t * y) * m) by (nonlinear_arith)
        requires
            0 <= x + t * y,
            1 <= m,
    ;
}

} // verus!
