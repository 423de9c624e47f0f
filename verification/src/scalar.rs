//! The numeric capability that the algebraic operations ask of stored values.

use vstd::prelude::*;

verus! {

/// A numeric scalar: additive and multiplicative identities, addition,
/// subtraction, multiplication and a test for zero.
///
/// Each operation comes with a condition under which it can be carried out
/// (for machine integers: the exact result is representable) and with the
/// value it then returns.
pub trait Scalar: Copy {
    /// The additive identity.
    spec fn zero_spec() -> Self;

    /// The multiplicative identity.
    spec fn one_spec() -> Self;

    /// Whether `self + rhs` can be computed.
    spec fn plus_ok(self, rhs: Self) -> bool;

    /// The value of `self + rhs`.
    spec fn plus_spec(self, rhs: Self) -> Self;

    /// Whether `self - rhs` can be computed.
    spec fn minus_ok(self, rhs: Self) -> bool;

    /// The value of `self - rhs`.
    spec fn minus_spec(self, rhs: Self) -> Self;

    /// Whether `self * rhs` can be computed.
    spec fn times_ok(self, rhs: Self) -> bool;

    /// The value of `self * rhs`.
    spec fn times_spec(self, rhs: Self) -> Self;

    /// Returns the additive identity.
    fn zero() -> (r: Self)
        ensures
            r == Self::zero_spec(),
    ;

    /// Returns the multiplicative identity.
    fn one() -> (r: Self)
        ensures
            r == Self::one_spec(),
    ;

    /// Tests whether the value is the additive identity.
    fn is_zero(self) -> (b: bool)
        ensures
            b == (self == Self::zero_spec()),
    ;

    /// Computes `self + rhs`.
    fn plus(self, rhs: Self) -> (r: Self)
        requires
            self.plus_ok(rhs),
        ensures
            r == self.plus_spec(rhs),
    ;

    /// Computes `self - rhs`.
    fn minus(self, rhs: Self) -> (r: Self)
        requires
            self.minus_ok(rhs),
        ensures
            r == self.minus_spec(rhs),
    ;

    /// Computes `self * rhs`.
    fn times(self, rhs: Self) -> (r: Self)
        requires
            self.times_ok(rhs),
        ensures
            r == self.times_spec(rhs),
    ;
}

/// `num::Zero::zero` at `i64`, which returns the literal `0`.
#[verifier::external_body]
fn num_zero_i64() -> (r: i64)
    ensures
        r == 0,
{
    <i64 as num::Zero>::zero()
}

/// `num::One::one` at `i64`, which returns the literal `1`.
#[verifier::external_body]
fn num_one_i64() -> (r: i64)
    ensures
        r == 1,
{
    <i64 as num::One>::one()
}

/// 64 bit signed integers: an operation can be carried out when its exact
/// result is representable.
impl Scalar for i64 {
    open spec fn zero_spec() -> i64 {
        0
    }

    open spec fn one_spec() -> i64 {
        1
    }

    open spec fn plus_ok(self, rhs: i64) -> bool {
        i64::MIN <= self + rhs <= i64::MAX
    }

    open spec fn plus_spec(self, rhs: i64) -> i64 {
        (self + rhs) as i64
    }

    open spec fn minus_ok(self, rhs: i64) -> bool {
        i64::MIN <= self - rhs <= i64::MAX
    }

    open spec fn minus_spec(self, rhs: i64) -> i64 {
        (self - rhs) as i64
    }

    open spec fn times_ok(self, rhs: i64) -> bool {
        i64::MIN <= self * rhs <= i64::MAX
    }

    open spec fn times_spec(self, rhs: i64) -> i64 {
        (self * rhs) as i64
    }

    fn zero() -> (r: i64) {
        num_zero_i64()
    }

    fn one() -> (r: i64) {
        num_one_i64()
    }

    fn is_zero(self) -> (b: bool) {
        self == 0
    }

    fn plus(self, rhs: i64) -> (r: i64) {
        self + rhs
    }

    fn minus(self, rhs: i64) -> (r: i64) {
        self - rhs
    }

    fn times(self, rhs: i64) -> (r: i64) {
        self * rhs
    }
}

} // verus!
