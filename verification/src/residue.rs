//! Exact scalars: the integers modulo the prime 8191.
//!
//! Two has the square root 128 here, so that every formula of the library can be
//! evaluated without rounding. Residues up to 4095 count as nonnegative, the others
//! as negative.

use vstd::prelude::*;

use crate::scalar::{Arith, Scalar};

verus! {

/// The modulus.
pub const MODULUS: u32 = 8191;

/// An integer modulo `MODULUS`.
#[derive(Clone, Copy, PartialEq, Eq, Structural, Debug)]
pub struct Residue {
    pub value: u32,
}

/// The residue of an integer.
pub open spec fn residue(n: int) -> Residue {
    Residue { value: (n % MODULUS as int) as u32 }
}

/// The `n`-th power of a residue.
pub open spec fn power(b: Residue, n: nat) -> Residue
    decreases n,
{
    if n == 0 {
        residue(1)
    } else {
        residue(power(b, (n - 1) as nat).value * (b.value % MODULUS))
    }
}

/// The distance of a residue from zero.
pub open spec fn distance(a: Residue) -> int {
    let v = (a.value % MODULUS) as int;
    if v <= MODULUS / 2 {
        v
    } else {
        MODULUS - v
    }
}

impl Arith for Residue {
    open spec fn spec_zero() -> Residue {
        residue(0)
    }

    open spec fn spec_one() -> Residue {
        residue(1)
    }

    open spec fn spec_empty_sum() -> Residue {
        residue(0)
    }

    open spec fn spec_inv_sqrt2() -> Residue {
        residue(64)
    }

    open spec fn spec_of_sign(sign: i8) -> Residue {
        residue(sign as int)
    }

    open spec fn spec_negate(self) -> Residue {
        residue(-(self.value as int))
    }

    open spec fn spec_plus(self, other: Residue) -> Residue {
        residue(self.value % MODULUS + other.value % MODULUS)
    }

    open spec fn spec_minus(self, other: Residue) -> Residue {
        residue(self.value % MODULUS - other.value % MODULUS)
    }

    open spec fn spec_times(self, other: Residue) -> Residue {
        residue((self.value % MODULUS) * (other.value % MODULUS))
    }

    open spec fn spec_over(self, other: Residue) -> Residue {
        self.spec_times(power(other, (MODULUS - 2) as nat))
    }

    open spec fn spec_is_nonnegative(self) -> bool {
        self.value % MODULUS <= MODULUS / 2
    }

    open spec fn spec_reaches(self, bound: Residue) -> bool {
        distance(self) >= bound.value % MODULUS
    }

    open spec fn spec_falls_below(self, bound: Residue) -> bool {
        distance(self) < bound.value % MODULUS
    }
}

/// Residues compute as integers do, up to multiples of the modulus: the residue of a sum is
/// the sum of the residues, and so are those of differences, products and negatives. One
/// over the square root of two is one.
pub proof fn lemma_residues_compute(a: int, b: int, sign: i8)
    ensures
        residue(a) == residue(b) <==> (a - b) % 8191 == 0,
        residue(a).spec_plus(residue(b)) == residue(a + b),
        residue(a).spec_minus(residue(b)) == residue(a - b),
        residue(a).spec_times(residue(b)) == residue(a * b),
        residue(a).spec_negate() == residue(-a),
        Residue::spec_zero() == residue(0),
        Residue::spec_one() == residue(1),
        Residue::spec_of_sign(sign) == residue(sign as int),
        residue(2).spec_times(
            Residue::spec_inv_sqrt2().spec_times(Residue::spec_inv_sqrt2()),
        ) == residue(1),
{
    let (x, y): (int, int) = (a % 8191, b % 8191);
    vstd::arithmetic::div_mod::lemma_add_mod_noop(a, b, 8191);
    vstd::arithmetic::div_mod::lemma_sub_mod_noop(a, b, 8191);
    vstd::arithmetic::div_mod::lemma_mul_mod_noop(a, b, 8191);
    vstd::arithmetic::div_mod::lemma_sub_mod_noop(0, a, 8191);
    assert(residue(a).value == x && residue(b).value == y);
    assert(x % 8191 == x && y % 8191 == y);
    assert(64int * 64 == 4096 && 2int * 4096 == 8192) by (nonlinear_arith);
    assert(residue(64).value == 64 && residue(4096).value == 4096 && residue(2).value == 2);
    assert(residue(64).spec_times(residue(64)) == residue(4096));
    assert(residue(2).spec_times(residue(4096)) == residue(8192));
    assert((-x) % 8191 == (-a) % 8191);
}

/// The distance of a residue from zero.
fn distance_of(a: Residue) -> (r: u32)
    ensures
        r == distance(a),
{
    let v: u32 = a.value % MODULUS;
    if v <= MODULUS / 2 {
        v
    } else {
        MODULUS - v
    }
}

/// The product of two residues below the modulus.
fn multiply(a: u32, b: u32) -> (r: u32)
    requires
        a < MODULUS,
        b < MODULUS,
    ensures
        r == residue(a * b).value,
        r < MODULUS,
{
    assert(0 <= a * b < 8191 * 8191) by (nonlinear_arith)
        requires
            a < 8191,
            b < 8191,
    ;
    (a * b) % MODULUS
}

impl Scalar for Residue {
    fn zero() -> (r: Residue) {
        Residue { value: 0 }
    }

    fn one() -> (r: Residue) {
        Residue { value: 1 }
    }

    fn empty_sum() -> (r: Residue) {
        Residue { value: 0 }
    }

    fn inv_sqrt2() -> (r: Residue) {
        Residue { value: 64 }
    }

    fn of_sign(sign: i8) -> (r: Residue) {
        let shifted: i32 = sign as i32 + MODULUS as i32;
        Residue { value: shifted as u32 % MODULUS }
    }

    fn negate(self) -> (r: Residue) {
        let v: u32 = self.value % MODULUS;
        if v == 0 {
            Residue { value: 0 }
        } else {
            Residue { value: MODULUS - v }
        }
    }

    fn plus(self, other: Residue) -> (r: Residue) {
        Residue { value: (self.value % MODULUS + other.value % MODULUS) % MODULUS }
    }

    fn minus(self, other: Residue) -> (r: Residue) {
        let shifted: u32 = self.value % MODULUS + MODULUS - other.value % MODULUS;
        Residue { value: shifted % MODULUS }
    }

    fn times(self, other: Residue) -> (r: Residue) {
        Residue { value: multiply(self.value % MODULUS, other.value % MODULUS) }
    }

    fn over(self, other: Residue) -> (r: Residue) {
        let base: u32 = other.value % MODULUS;
        let mut inverse: u32 = 1;
        let mut n: u32 = 0;
        while n < MODULUS - 2
            invariant
                n <= MODULUS - 2,
                base == other.value % MODULUS,
                inverse < MODULUS,
                inverse == power(other, n as nat).value,
            decreases MODULUS - 2 - n,
        {
            inverse = multiply(inverse, base);
            n += 1;
        }
        self.times(Residue { value: inverse })
    }

    fn is_nonnegative(self) -> (r: bool) {
        self.value % MODULUS <= MODULUS / 2
    }

    fn reaches(self, bound: Residue) -> (r: bool) {
        distance_of(self) >= bound.value % MODULUS
    }

    fn falls_below(self, bound: Residue) -> (r: bool) {
        distance_of(self) < bound.value % MODULUS
    }
}

} // verus!
