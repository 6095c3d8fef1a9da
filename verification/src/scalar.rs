//! The element type of a tensor and the vocabulary used to speak about
//! its arithmetic.
//!
//! Rounding makes the arithmetic of a machine number a matter of the
//! implementation, so nothing is assumed about it. Each predicate below
//! says that a value is a possible outcome of one operation on given
//! operands; the kernels' contracts are built from these predicates.

use vstd::prelude::*;

verus! {

/// A numeric element type: the operations the kernels need, and nothing else.
pub trait Scalar: Copy {
    /// The additive identity.
    fn zero() -> Self;

    /// The multiplicative identity.
    fn one() -> Self;

    /// The value nearest to the integer `n`.
    fn from_usize(n: usize) -> Self;

    /// A value in the unit interval `[0, 1)`, uniformly distributed when
    /// `bits` is.
    fn uniform(bits: u32) -> Self;

    fn add(self, rhs: Self) -> Self;

    fn sub(self, rhs: Self) -> Self;

    fn mul(self, rhs: Self) -> Self;

    fn div(self, rhs: Self) -> Self;

    fn neg(self) -> Self;

    fn abs(self) -> Self;

    fn exp(self) -> Self;

    fn sqrt(self) -> Self;

    /// `self` raised to the power `e`.
    fn powf(self, e: Self) -> Self;

    /// Sine and cosine of `self`, in that order.
    fn sin_cos(self) -> (Self, Self);

    fn max(self, rhs: Self) -> Self;

    fn min(self, rhs: Self) -> Self;

    /// Whether `self` is less than or equal to `rhs`.
    fn le(self, rhs: Self) -> bool;

    /// An integer that orders the values: a greater value has a greater rank.
    fn rank(self) -> u64;
}

pub open spec fn is_zero<T: Scalar>(r: T) -> bool {
    call_ensures(T::zero, (), r)
}

pub open spec fn is_one<T: Scalar>(r: T) -> bool {
    call_ensures(T::one, (), r)
}

pub open spec fn is_from_usize<T: Scalar>(n: usize, r: T) -> bool {
    call_ensures(T::from_usize, (n,), r)
}

pub open spec fn is_uniform<T: Scalar>(bits: u32, r: T) -> bool {
    call_ensures(T::uniform, (bits,), r)
}

pub open spec fn is_sum<T: Scalar>(a: T, b: T, r: T) -> bool {
    call_ensures(T::add, (a, b), r)
}

pub open spec fn is_difference<T: Scalar>(a: T, b: T, r: T) -> bool {
    call_ensures(T::sub, (a, b), r)
}

pub open spec fn is_product<T: Scalar>(a: T, b: T, r: T) -> bool {
    call_ensures(T::mul, (a, b), r)
}

pub open spec fn is_quotient<T: Scalar>(a: T, b: T, r: T) -> bool {
    call_ensures(T::div, (a, b), r)
}

pub open spec fn is_negation<T: Scalar>(a: T, r: T) -> bool {
    call_ensures(T::neg, (a,), r)
}

pub open spec fn is_abs<T: Scalar>(a: T, r: T) -> bool {
    call_ensures(T::abs, (a,), r)
}

pub open spec fn is_exp<T: Scalar>(a: T, r: T) -> bool {
    call_ensures(T::exp, (a,), r)
}

pub open spec fn is_sqrt<T: Scalar>(a: T, r: T) -> bool {
    call_ensures(T::sqrt, (a,), r)
}

pub open spec fn is_power<T: Scalar>(a: T, e: T, r: T) -> bool {
    call_ensures(T::powf, (a, e), r)
}

pub open spec fn is_sin_cos<T: Scalar>(a: T, s: T, c: T) -> bool {
    call_ensures(T::sin_cos, (a,), (s, c))
}

pub open spec fn is_max<T: Scalar>(a: T, b: T, r: T) -> bool {
    call_ensures(T::max, (a, b), r)
}

pub open spec fn is_min<T: Scalar>(a: T, b: T, r: T) -> bool {
    call_ensures(T::min, (a, b), r)
}

/// `holds` is a possible answer to "is `a` at most `b`?".
pub open spec fn is_le<T: Scalar>(a: T, b: T, holds: bool) -> bool {
    call_ensures(T::le, (a, b), holds)
}

pub open spec fn is_rank<T: Scalar>(a: T, r: u64) -> bool {
    call_ensures(T::rank, (a,), r)
}

} // verus!
