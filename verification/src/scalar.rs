//! The numbers that the matrices, the networks and the evolutionary search
//! compute with.
//!
//! Everything in this crate is generic over [`Scalar`]. An implementation says
//! through the `spec_*` functions what each of its operations computes, and the
//! contracts of the crate are stated over those functions, so that they say
//! exactly which operations are applied to which operands, and in which order.
//! [`crate::fixed::Fixed`] is an implementation that is verified against this
//! trait.
use vstd::prelude::*;

verus! {

/// A number type with the arithmetic of a feed-forward network.
///
/// Each `spec_*` function is the model of the executable method of the same
/// name: an implementation says with it what the method computes.
pub trait Scalar: Copy {
    /// The scalar that stands for `numerator / denominator`.
    spec fn spec_from_ratio(numerator: i64, denominator: i64) -> Self;

    /// The sum of two scalars.
    spec fn spec_add(self, rhs: Self) -> Self;

    /// The difference of two scalars.
    spec fn spec_sub(self, rhs: Self) -> Self;

    /// The product of two scalars.
    spec fn spec_mul(self, rhs: Self) -> Self;

    /// The quotient of two scalars.
    spec fn spec_div(self, rhs: Self) -> Self;

    /// The natural exponential of a scalar.
    spec fn spec_exp(self) -> Self;

    /// A scalar raised to a scalar power.
    spec fn spec_powf(self, exponent: Self) -> Self;

    /// The strict order of the scalars.
    spec fn spec_lt(self, rhs: Self) -> bool;

    /// The integer part of a scalar, limited to the range of `i32`.
    spec fn spec_truncate(self) -> i32;

    fn from_ratio(numerator: i64, denominator: i64) -> (r: Self)
        ensures
            r == Self::spec_from_ratio(numerator, denominator),
    ;

    fn add(self, rhs: Self) -> (r: Self)
        ensures
            r == self.spec_add(rhs),
    ;

    fn sub(self, rhs: Self) -> (r: Self)
        ensures
            r == self.spec_sub(rhs),
    ;

    fn mul(self, rhs: Self) -> (r: Self)
        ensures
            r == self.spec_mul(rhs),
    ;

    fn div(self, rhs: Self) -> (r: Self)
        ensures
            r == self.spec_div(rhs),
    ;

    fn exp(self) -> (r: Self)
        ensures
            r == self.spec_exp(),
    ;

    fn powf(self, exponent: Self) -> (r: Self)
        ensures
            r == self.spec_powf(exponent),
    ;

    fn less_than(self, rhs: Self) -> (r: bool)
        ensures
            r == self.spec_lt(rhs),
    ;

    fn truncate(self) -> (r: i32)
        ensures
            r == self.spec_truncate(),
    ;
}

/// Zero, as the scalar type writes it.
pub open spec fn zero<T: Scalar>() -> T {
    T::spec_from_ratio(0, 1)
}

/// One, as the scalar type writes it.
pub open spec fn one<T: Scalar>() -> T {
    T::spec_from_ratio(1, 1)
}

/// The scalar that stands for the integer `n`.
pub open spec fn whole<T: Scalar>(n: i64) -> T {
    T::spec_from_ratio(n, 1)
}

/// Zero and one are, for the scalar type, what they are for numbers: a
/// product with zero is zero, a product with one and a sum with zero change
/// nothing.
pub open spec fn neutral_units<T: Scalar>() -> bool {
    &&& forall|x: T| #[trigger] x.spec_mul(zero::<T>()) == zero::<T>()
    &&& forall|x: T| #[trigger] zero::<T>().spec_mul(x) == zero::<T>()
    &&& forall|x: T| #[trigger] x.spec_mul(one::<T>()) == x
    &&& forall|x: T| #[trigger] one::<T>().spec_mul(x) == x
    &&& forall|x: T| #[trigger] x.spec_add(zero::<T>()) == x
    &&& forall|x: T| #[trigger] zero::<T>().spec_add(x) == x
}

/// The order of the scalar type ranks its values: of two values at most one
/// is below the other, and where `a` is below `b`, every value is above `a`
/// or below `b`.
pub open spec fn ranked<T: Scalar>() -> bool {
    &&& forall|a: T, b: T| #[trigger] a.spec_lt(b) ==> !b.spec_lt(a)
    &&& forall|a: T, b: T, c: T|
        #![trigger a.spec_lt(b), a.spec_lt(c)]
        #![trigger a.spec_lt(b), c.spec_lt(b)]
        a.spec_lt(b) ==> a.spec_lt(c) || c.spec_lt(b)
}

/// Neither scalar is below the other.
pub open spec fn same_rank<T: Scalar>(a: T, b: T) -> bool {
    !a.spec_lt(b) && !b.spec_lt(a)
}

/// `x` is `bound` or above it.
pub open spec fn at_least<T: Scalar>(x: T, bound: T) -> bool {
    bound.spec_lt(x) || x == bound
}

/// `x` is `bound` or below it.
pub open spec fn at_most<T: Scalar>(x: T, bound: T) -> bool {
    x.spec_lt(bound) || x == bound
}

/// `x` lies between `min` and `max`, the ends included.
pub open spec fn within<T: Scalar>(x: T, min: T, max: T) -> bool {
    at_least(x, min) && at_most(x, max)
}

/// The logistic function `1 / (1 + e^(-x))`, written with the scalar's own
/// operations: the negation is `0 - x`.
pub open spec fn spec_sigmoid<T: Scalar>(x: T) -> T {
    one::<T>().spec_div(one::<T>().spec_add(zero::<T>().spec_sub(x).spec_exp()))
}

/// The slope of the logistic function at a point where it has the value `y`:
/// `y * (1 - y)`.
pub open spec fn spec_sigmoid_slope<T: Scalar>(y: T) -> T {
    y.spec_mul(one::<T>().spec_sub(y))
}

/// `x` limited to the interval from `min` to `max`.
pub open spec fn spec_clamp<T: Scalar>(x: T, min: T, max: T) -> T {
    let capped = if x.spec_lt(max) { x } else { max };
    if min.spec_lt(capped) { capped } else { min }
}

/// A value limited to an interval lies in the interval, wherever the lower
/// end is not above the upper end.
pub proof fn lemma_clamp_within<T: Scalar>(x: T, min: T, max: T)
    requires
        at_most(min, max),
    ensures
        within(spec_clamp(x, min, max), min, max),
{
}

/// Computes the logistic function of `x`.
pub fn sigmoid<T: Scalar>(x: T) -> (r: T)
    ensures
        r == spec_sigmoid(x),
{
    let one_value = T::from_ratio(1, 1);
    let zero_value = T::from_ratio(0, 1);
    one_value.div(one_value.add(zero_value.sub(x).exp()))
}

/// Computes `y * (1 - y)`.
pub fn sigmoid_slope<T: Scalar>(y: T) -> (r: T)
    ensures
        r == spec_sigmoid_slope(y),
{
    y.mul(T::from_ratio(1, 1).sub(y))
}

/// Limits `x` to the interval from `min` to `max`: the larger of `min` and
/// the smaller of `max` and `x`.
pub fn clamp<T: Scalar>(x: T, min: T, max: T) -> (r: T)
    ensures
        r == spec_clamp(x, min, max),
        at_most(min, max) ==> within(r, min, max),
{
    let capped = if x.less_than(max) { x } else { max };
    if min.less_than(capped) { capped } else { min }
}

/// Whether neither of two scalars is below the other.
pub fn equal_rank<T: Scalar>(a: T, b: T) -> (r: bool)
    ensures
        r == same_rank(a, b),
{
    !a.less_than(b) && !b.less_than(a)
}

} // verus!
