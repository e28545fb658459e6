//! Groups: monoids in which every element has an inverse.

use crate::num::Zero;
use crate::traits::math::monoid::Monoid;
use vstd::prelude::*;

verus! {

/// A monoid in which every element has an inverse.
pub trait Group: Monoid {
    /// The inverse, as a mathematical function.
    spec fn inv_spec(x: Self) -> Self;

    /// Returns the inverse of an element.
    fn inv(x: Self) -> (r: Self)
        requires
            x.valid(),
        ensures
            r == Self::inv_spec(x),
    ;

    /// The inverse of a member of the carrier is a member, and cancels it on
    /// both sides.
    proof fn lemma_inverse(x: Self)
        requires
            x.valid(),
        ensures
            Self::inv_spec(x).valid(),
            Self::op_spec(x, Self::inv_spec(x)) == Self::id_spec(),
            Self::op_spec(Self::inv_spec(x), x) == Self::id_spec(),
    ;
}

/// Whether the operation of `T` commutes on the carrier set.
pub open spec fn is_commutative<T: Monoid>() -> bool {
    forall|x: T, y: T| x.valid() && y.valid() ==> #[trigger] T::op_spec(x, y) == T::op_spec(y, x)
}

/// The additive group of a numeric type: the operation is addition, the
/// identity is zero and the inverse is negation.
///
/// For the primitive signed integers the addition is that of the machine, which
/// wraps around at the bounds of the type; only so is every sum defined and
/// every element invertible. The primitive signed integers are groups in this
/// way by themselves too, without the wrapper.
#[derive(Clone, Copy, Debug)]
pub struct Additive<T>(pub T);

impl Monoid for Additive<i8> {
    open spec fn valid(self) -> bool {
        true
    }

    open spec fn op_spec(x: Self, y: Self) -> Self {
        Additive(x.0.wrapping_add(y.0))
    }

    open spec fn id_spec() -> Self {
        Additive(0)
    }

    fn op(x: Self, y: Self) -> (r: Self) {
        Additive(x.0.wrapping_add(y.0))
    }

    fn id() -> (r: Self) {
        Additive(<i8 as Zero>::zero())
    }

    proof fn lemma_id_valid() {
    }

    proof fn lemma_closed(x: Self, y: Self) {
    }

    proof fn lemma_identity(x: Self) {
    }

    proof fn lemma_associative(x: Self, y: Self, z: Self) {
    }
}

impl Group for Additive<i8> {
    open spec fn inv_spec(x: Self) -> Self {
        Additive((0 as i8).wrapping_sub(x.0))
    }

    fn inv(x: Self) -> (r: Self) {
        Additive((0 as i8).wrapping_sub(x.0))
    }

    proof fn lemma_inverse(x: Self) {
    }
}

/// Addition of `i8` commutes.
pub proof fn lemma_additive_i8_commutative()
    ensures
        is_commutative::<Additive<i8>>(),
{
}

impl Monoid for Additive<i16> {
    open spec fn valid(self) -> bool {
        true
    }

    open spec fn op_spec(x: Self, y: Self) -> Self {
        Additive(x.0.wrapping_add(y.0))
    }

    open spec fn id_spec() -> Self {
        Additive(0)
    }

    fn op(x: Self, y: Self) -> (r: Self) {
        Additive(x.0.wrapping_add(y.0))
    }

    fn id() -> (r: Self) {
        Additive(<i16 as Zero>::zero())
    }

    proof fn lemma_id_valid() {
    }

    proof fn lemma_closed(x: Self, y: Self) {
    }

    proof fn lemma_identity(x: Self) {
    }

    proof fn lemma_associative(x: Self, y: Self, z: Self) {
    }
}

impl Group for Additive<i16> {
    open spec fn inv_spec(x: Self) -> Self {
        Additive((0 as i16).wrapping_sub(x.0))
    }

    fn inv(x: Self) -> (r: Self) {
        Additive((0 as i16).wrapping_sub(x.0))
    }

    proof fn lemma_inverse(x: Self) {
    }
}

/// Addition of `i16` commutes.
pub proof fn lemma_additive_i16_commutative()
    ensures
        is_commutative::<Additive<i16>>(),
{
}

impl Monoid for Additive<i32> {
    open spec fn valid(self) -> bool {
        true
    }

    open spec fn op_spec(x: Self, y: Self) -> Self {
        Additive(x.0.wrapping_add(y.0))
    }

    open spec fn id_spec() -> Self {
        Additive(0)
    }

    fn op(x: Self, y: Self) -> (r: Self) {
        Additive(x.0.wrapping_add(y.0))
    }

    fn id() -> (r: Self) {
        Additive(<i32 as Zero>::zero())
    }

    proof fn lemma_id_valid() {
    }

    proof fn lemma_closed(x: Self, y: Self) {
    }

    proof fn lemma_identity(x: Self) {
    }

    proof fn lemma_associative(x: Self, y: Self, z: Self) {
    }
}

impl Group for Additive<i32> {
    open spec fn inv_spec(x: Self) -> Self {
        Additive((0 as i32).wrapping_sub(x.0))
    }

    fn inv(x: Self) -> (r: Self) {
        Additive((0 as i32).wrapping_sub(x.0))
    }

    proof fn lemma_inverse(x: Self) {
    }
}

/// Addition of `i32` commutes.
pub proof fn lemma_additive_i32_commutative()
    ensures
        is_commutative::<Additive<i32>>(),
{
}

impl Monoid for Additive<i64> {
    open spec fn valid(self) -> bool {
        true
    }

    open spec fn op_spec(x: Self, y: Self) -> Self {
        Additive(x.0.wrapping_add(y.0))
    }

    open spec fn id_spec() -> Self {
        Additive(0)
    }

    fn op(x: Self, y: Self) -> (r: Self) {
        Additive(x.0.wrapping_add(y.0))
    }

    fn id() -> (r: Self) {
        Additive(<i64 as Zero>::zero())
    }

    proof fn lemma_id_valid() {
    }

    proof fn lemma_closed(x: Self, y: Self) {
    }

    proof fn lemma_identity(x: Self) {
    }

    proof fn lemma_associative(x: Self, y: Self, z: Self) {
    }
}

impl Group for Additive<i64> {
    open spec fn inv_spec(x: Self) -> Self {
        Additive((0 as i64).wrapping_sub(x.0))
    }

    fn inv(x: Self) -> (r: Self) {
        Additive((0 as i64).wrapping_sub(x.0))
    }

    proof fn lemma_inverse(x: Self) {
    }
}

/// Addition of `i64` commutes.
pub proof fn lemma_additive_i64_commutative()
    ensures
        is_commutative::<Additive<i64>>(),
{
}

impl Monoid for Additive<i128> {
    open spec fn valid(self) -> bool {
        true
    }

    open spec fn op_spec(x: Self, y: Self) -> Self {
        Additive(x.0.wrapping_add(y.0))
    }

    open spec fn id_spec() -> Self {
        Additive(0)
    }

    fn op(x: Self, y: Self) -> (r: Self) {
        Additive(x.0.wrapping_add(y.0))
    }

    fn id() -> (r: Self) {
        Additive(0)
    }

    proof fn lemma_id_valid() {
    }

    proof fn lemma_closed(x: Self, y: Self) {
    }

    proof fn lemma_identity(x: Self) {
    }

    proof fn lemma_associative(x: Self, y: Self, z: Self) {
    }
}

impl Group for Additive<i128> {
    open spec fn inv_spec(x: Self) -> Self {
        Additive((0 as i128).wrapping_sub(x.0))
    }

    fn inv(x: Self) -> (r: Self) {
        Additive((0 as i128).wrapping_sub(x.0))
    }

    proof fn lemma_inverse(x: Self) {
    }
}

/// Addition of `i128` commutes.
pub proof fn lemma_additive_i128_commutative()
    ensures
        is_commutative::<Additive<i128>>(),
{
}

impl Monoid for Additive<isize> {
    open spec fn valid(self) -> bool {
        true
    }

    open spec fn op_spec(x: Self, y: Self) -> Self {
        Additive(x.0.wrapping_add(y.0))
    }

    open spec fn id_spec() -> Self {
        Additive(0)
    }

    fn op(x: Self, y: Self) -> (r: Self) {
        Additive(x.0.wrapping_add(y.0))
    }

    fn id() -> (r: Self) {
        Additive(<isize as Zero>::zero())
    }

    proof fn lemma_id_valid() {
    }

    proof fn lemma_closed(x: Self, y: Self) {
    }

    proof fn lemma_identity(x: Self) {
    }

    proof fn lemma_associative(x: Self, y: Self, z: Self) {
    }
}

impl Group for Additive<isize> {
    open spec fn inv_spec(x: Self) -> Self {
        Additive((0 as isize).wrapping_sub(x.0))
    }

    fn inv(x: Self) -> (r: Self) {
        Additive((0 as isize).wrapping_sub(x.0))
    }

    proof fn lemma_inverse(x: Self) {
    }
}

/// Addition of `isize` commutes.
pub proof fn lemma_additive_isize_commutative()
    ensures
        is_commutative::<Additive<isize>>(),
{
}

impl Monoid for i8 {
    open spec fn valid(self) -> bool {
        true
    }

    open spec fn op_spec(x: Self, y: Self) -> Self {
        x.wrapping_add(y)
    }

    open spec fn id_spec() -> Self {
        0
    }

    fn op(x: Self, y: Self) -> (r: Self) {
        x.wrapping_add(y)
    }

    fn id() -> (r: Self) {
        <i8 as Zero>::zero()
    }

    proof fn lemma_id_valid() {
    }

    proof fn lemma_closed(x: Self, y: Self) {
    }

    proof fn lemma_identity(x: Self) {
    }

    proof fn lemma_associative(x: Self, y: Self, z: Self) {
    }
}

impl Group for i8 {
    open spec fn inv_spec(x: Self) -> Self {
        (0 as i8).wrapping_sub(x)
    }

    fn inv(x: Self) -> (r: Self) {
        (0 as i8).wrapping_sub(x)
    }

    proof fn lemma_inverse(x: Self) {
    }
}

/// Addition of `i8` commutes.
pub proof fn lemma_i8_commutative()
    ensures
        is_commutative::<i8>(),
{
}

impl Monoid for i16 {
    open spec fn valid(self) -> bool {
        true
    }

    open spec fn op_spec(x: Self, y: Self) -> Self {
        x.wrapping_add(y)
    }

    open spec fn id_spec() -> Self {
        0
    }

    fn op(x: Self, y: Self) -> (r: Self) {
        x.wrapping_add(y)
    }

    fn id() -> (r: Self) {
        <i16 as Zero>::zero()
    }

    proof fn lemma_id_valid() {
    }

    proof fn lemma_closed(x: Self, y: Self) {
    }

    proof fn lemma_identity(x: Self) {
    }

    proof fn lemma_associative(x: Self, y: Self, z: Self) {
    }
}

impl Group for i16 {
    open spec fn inv_spec(x: Self) -> Self {
        (0 as i16).wrapping_sub(x)
    }

    fn inv(x: Self) -> (r: Self) {
        (0 as i16).wrapping_sub(x)
    }

    proof fn lemma_inverse(x: Self) {
    }
}

/// Addition of `i16` commutes.
pub proof fn lemma_i16_commutative()
    ensures
        is_commutative::<i16>(),
{
}

impl Monoid for i32 {
    open spec fn valid(self) -> bool {
        true
    }

    open spec fn op_spec(x: Self, y: Self) -> Self {
        x.wrapping_add(y)
    }

    open spec fn id_spec() -> Self {
        0
    }

    fn op(x: Self, y: Self) -> (r: Self) {
        x.wrapping_add(y)
    }

    fn id() -> (r: Self) {
        <i32 as Zero>::zero()
    }

    proof fn lemma_id_valid() {
    }

    proof fn lemma_closed(x: Self, y: Self) {
    }

    proof fn lemma_identity(x: Self) {
    }

    proof fn lemma_associative(x: Self, y: Self, z: Self) {
    }
}

impl Group for i32 {
    open spec fn inv_spec(x: Self) -> Self {
        (0 as i32).wrapping_sub(x)
    }

    fn inv(x: Self) -> (r: Self) {
        (0 as i32).wrapping_sub(x)
    }

    proof fn lemma_inverse(x: Self) {
    }
}

/// Addition of `i32` commutes.
pub proof fn lemma_i32_commutative()
    ensures
        is_commutative::<i32>(),
{
}

impl Monoid for i64 {
    open spec fn valid(self) -> bool {
        true
    }

    open spec fn op_spec(x: Self, y: Self) -> Self {
        x.wrapping_add(y)
    }

    open spec fn id_spec() -> Self {
        0
    }

    fn op(x: Self, y: Self) -> (r: Self) {
        x.wrapping_add(y)
    }

    fn id() -> (r: Self) {
        <i64 as Zero>::zero()
    }

    proof fn lemma_id_valid() {
    }

    proof fn lemma_closed(x: Self, y: Self) {
    }

    proof fn lemma_identity(x: Self) {
    }

    proof fn lemma_associative(x: Self, y: Self, z: Self) {
    }
}

impl Group for i64 {
    open spec fn inv_spec(x: Self) -> Self {
        (0 as i64).wrapping_sub(x)
    }

    fn inv(x: Self) -> (r: Self) {
        (0 as i64).wrapping_sub(x)
    }

    proof fn lemma_inverse(x: Self) {
    }
}

/// Addition of `i64` commutes.
pub proof fn lemma_i64_commutative()
    ensures
        is_commutative::<i64>(),
{
}

impl Monoid for i128 {
    open spec fn valid(self) -> bool {
        true
    }

    open spec fn op_spec(x: Self, y: Self) -> Self {
        x.wrapping_add(y)
    }

    open spec fn id_spec() -> Self {
        0
    }

    fn op(x: Self, y: Self) -> (r: Self) {
        x.wrapping_add(y)
    }

    fn id() -> (r: Self) {
        0
    }

    proof fn lemma_id_valid() {
    }

    proof fn lemma_closed(x: Self, y: Self) {
    }

    proof fn lemma_identity(x: Self) {
    }

    proof fn lemma_associative(x: Self, y: Self, z: Self) {
    }
}

impl Group for i128 {
    open spec fn inv_spec(x: Self) -> Self {
        (0 as i128).wrapping_sub(x)
    }

    fn inv(x: Self) -> (r: Self) {
        (0 as i128).wrapping_sub(x)
    }

    proof fn lemma_inverse(x: Self) {
    }
}

/// Addition of `i128` commutes.
pub proof fn lemma_i128_commutative()
    ensures
        is_commutative::<i128>(),
{
}

impl Monoid for isize {
    open spec fn valid(self) -> bool {
        true
    }

    open spec fn op_spec(x: Self, y: Self) -> Self {
        x.wrapping_add(y)
    }

    open spec fn id_spec() -> Self {
        0
    }

    fn op(x: Self, y: Self) -> (r: Self) {
        x.wrapping_add(y)
    }

    fn id() -> (r: Self) {
        <isize as Zero>::zero()
    }

    proof fn lemma_id_valid() {
    }

    proof fn lemma_closed(x: Self, y: Self) {
    }

    proof fn lemma_identity(x: Self) {
    }

    proof fn lemma_associative(x: Self, y: Self, z: Self) {
    }
}

impl Group for isize {
    open spec fn inv_spec(x: Self) -> Self {
        (0 as isize).wrapping_sub(x)
    }

    fn inv(x: Self) -> (r: Self) {
        (0 as isize).wrapping_sub(x)
    }

    proof fn lemma_inverse(x: Self) {
    }
}

/// Addition of `isize` commutes.
pub proof fn lemma_isize_commutative()
    ensures
        is_commutative::<isize>(),
{
}

} // verus!
