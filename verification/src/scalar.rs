//! The numbers that coefficients, angles and gradients are made of.
//!
//! The library is written for any scalar type. A caller brings a machine type
//! with its own rounding; the contracts then name the operations performed, in
//! their order, and say nothing about rounding. Read over the real numbers, the
//! same formulas are subject to the laws of `calculus`.

use vstd::prelude::*;

verus! {

/// The operations of a scalar type, as functions of their operands.
pub trait Arith: Sized {
    /// Zero.
    spec fn spec_zero() -> Self;

    /// One.
    spec fn spec_one() -> Self;

    /// What a sum over no items is.
    spec fn spec_empty_sum() -> Self;

    /// One over the square root of two.
    spec fn spec_inv_sqrt2() -> Self;

    /// The scalar of a small integer.
    spec fn spec_of_sign(sign: i8) -> Self;

    /// `-self`.
    spec fn spec_negate(self) -> Self;

    /// `self + other`.
    spec fn spec_plus(self, other: Self) -> Self;

    /// `self - other`.
    spec fn spec_minus(self, other: Self) -> Self;

    /// `self * other`.
    spec fn spec_times(self, other: Self) -> Self;

    /// `self / other`.
    spec fn spec_over(self, other: Self) -> Self;

    /// Whether `self` is zero or above.
    spec fn spec_is_nonnegative(self) -> bool;

    /// Whether the magnitude of `self` is `bound` or above.
    spec fn spec_reaches(self, bound: Self) -> bool;

    /// Whether the magnitude of `self` is below `bound`.
    spec fn spec_falls_below(self, bound: Self) -> bool;
}

/// A scalar type that can be computed with. Each operation is claimed to be a
/// function of its operands, and nothing more.
pub trait Scalar: Arith + Copy {
    fn zero() -> (r: Self)
        ensures
            r == Self::spec_zero(),
    ;

    fn one() -> (r: Self)
        ensures
            r == Self::spec_one(),
    ;

    fn empty_sum() -> (r: Self)
        ensures
            r == Self::spec_empty_sum(),
    ;

    fn inv_sqrt2() -> (r: Self)
        ensures
            r == Self::spec_inv_sqrt2(),
    ;

    fn of_sign(sign: i8) -> (r: Self)
        ensures
            r == Self::spec_of_sign(sign),
    ;

    fn negate(self) -> (r: Self)
        ensures
            r == self.spec_negate(),
    ;

    fn plus(self, other: Self) -> (r: Self)
        ensures
            r == self.spec_plus(other),
    ;

    fn minus(self, other: Self) -> (r: Self)
        ensures
            r == self.spec_minus(other),
    ;

    fn times(self, other: Self) -> (r: Self)
        ensures
            r == self.spec_times(other),
    ;

    fn over(self, other: Self) -> (r: Self)
        ensures
            r == self.spec_over(other),
    ;

    fn is_nonnegative(self) -> (r: bool)
        ensures
            r == self.spec_is_nonnegative(),
    ;

    fn reaches(self, bound: Self) -> (r: bool)
        ensures
            r == self.spec_reaches(bound),
    ;

    fn falls_below(self, bound: Self) -> (r: bool)
        ensures
            r == self.spec_falls_below(bound),
    ;
}

/// The magnitude of a real number.
pub open spec fn magnitude(a: real) -> real {
    if a < 0real {
        -a
    } else {
        a
    }
}

/// Whether `h` is one over the square root of two.
pub open spec fn is_inv_sqrt2(h: real) -> bool {
    h > 0real && 2real * (h * h) == 1real
}

/// Exact arithmetic. Laws that need one over the square root of two to be one ask for it.
impl Arith for real {
    open spec fn spec_zero() -> real {
        0real
    }

    open spec fn spec_one() -> real {
        1real
    }

    open spec fn spec_empty_sum() -> real {
        0real
    }

    open spec fn spec_inv_sqrt2() -> real {
        choose|h: real| is_inv_sqrt2(h)
    }

    open spec fn spec_of_sign(sign: i8) -> real {
        sign as real
    }

    open spec fn spec_negate(self) -> real {
        -self
    }

    open spec fn spec_plus(self, other: real) -> real {
        self + other
    }

    open spec fn spec_minus(self, other: real) -> real {
        self - other
    }

    open spec fn spec_times(self, other: real) -> real {
        self * other
    }

    open spec fn spec_over(self, other: real) -> real {
        self / other
    }

    open spec fn spec_is_nonnegative(self) -> bool {
        self >= 0real
    }

    open spec fn spec_reaches(self, bound: real) -> bool {
        magnitude(self) >= bound
    }

    open spec fn spec_falls_below(self, bound: real) -> bool {
        magnitude(self) < bound
    }
}

} // verus!
