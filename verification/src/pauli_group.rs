//! The rule tables against the multiplication of Pauli matrices.
//!
//! Phases are powers of the imaginary unit, written by their exponents modulo four.

use vstd::prelude::*;

use crate::rules::{
    anticommute, axis_before, controlled, controlled_turned, hadamard, product, turn_sign, turned,
    AXIS_X, AXIS_Y, AXIS_Z, CRBranch,
};

verus! {

/// Whether a label is one of the three axes.
pub open spec fn is_axis(a: u8) -> bool {
    a == AXIS_X || a == AXIS_Y || a == AXIS_Z
}

/// The phase of the product of two Pauli matrices: `XY`, `YZ` and `ZX` have `i`, the
/// same in the other order have `-i`.
pub open spec fn product_phase(a: u8, b: u8) -> int {
    if !anticommute(a, b) {
        0
    } else if a == axis_before(b) {
        1
    } else {
        3
    }
}

/// The phase of a sign.
pub open spec fn sign_phase(sign: i8) -> int {
    if sign == 1 {
        0
    } else {
        2
    }
}

/// A label with a sign, where a label that a table does not list stays.
pub open spec fn image(label: u8, out: Option<(u8, i8)>) -> (u8, i8) {
    match out {
        Some(pair) => pair,
        None => (label, 1i8),
    }
}

/// A pair of labels with a sign, where a pair that a table does not list stays.
pub open spec fn pair_image(control: u8, target: u8, out: Option<(u8, u8, i8)>) -> (u8, u8, i8) {
    match out {
        Some(triple) => triple,
        None => (control, target, 1i8),
    }
}

/// A turn multiplies by `i` times its axis, from the left.
pub proof fn lemma_turn_multiplies(axis: u8, label: u8)
    requires
        is_axis(axis),
        label < 4,
        anticommute(axis, label),
    ensures
        turned(axis, label) == Some((product(axis, label), turn_sign(axis, label))),
        (1 + product_phase(axis, label)) % 4 == sign_phase(turn_sign(axis, label)),
{
}

/// A quarter turn respects products: the image of a product is the product of the
/// images.
pub proof fn lemma_turn_respects_products(axis: u8, a: u8, b: u8)
    requires
        is_axis(axis),
        a < 4,
        b < 4,
    ensures
        ({
            let (a1, sa) = image(a, turned(axis, a));
            let (b1, sb) = image(b, turned(axis, b));
            let c = product(a, b);
            let (c1, sc) = image(c, turned(axis, c));
            &&& c1 == product(a1, b1)
            &&& (sign_phase(sa) + sign_phase(sb) + product_phase(a1, b1)) % 4 == (sign_phase(sc)
                + product_phase(a, b)) % 4
        }),
{
}

/// The Hadamard gate respects products.
pub proof fn lemma_hadamard_respects_products(a: u8, b: u8)
    requires
        a < 4,
        b < 4,
    ensures
        ({
            let (a1, sa) = image(a, hadamard(a));
            let (b1, sb) = image(b, hadamard(b));
            let c = product(a, b);
            let (c1, sc) = image(c, hadamard(c));
            &&& c1 == product(a1, b1)
            &&& (sign_phase(sa) + sign_phase(sb) + product_phase(a1, b1)) % 4 == (sign_phase(sc)
                + product_phase(a, b)) % 4
        }),
{
}

/// A controlled Pauli gate respects products of pairs.
#[verifier::rlimit(50)]
pub proof fn lemma_controlled_respects_products(axis: u8, c: u8, t: u8, d: u8, u: u8)
    requires
        is_axis(axis),
        c < 4,
        t < 4,
        d < 4,
        u < 4,
    ensures
        ({
            let (c1, t1, s1) = pair_image(c, t, controlled(axis, c, t));
            let (d1, u1, s2) = pair_image(d, u, controlled(axis, d, u));
            let e = product(c, d);
            let v = product(t, u);
            let (e1, v1, s3) = pair_image(e, v, controlled(axis, e, v));
            &&& e1 == product(c1, d1)
            &&& v1 == product(t1, u1)
            &&& (sign_phase(s1) + sign_phase(s2) + product_phase(c1, d1) + product_phase(t1, u1))
                % 4 == (sign_phase(s3) + product_phase(c, d) + product_phase(t, u)) % 4
        }),
{
}

/// The Hadamard gate undoes itself.
pub proof fn lemma_hadamard_undoes_itself(l: u8)
    requires
        l < 4,
    ensures
        ({
            let (l1, s1) = image(l, hadamard(l));
            let (l2, s2) = image(l1, hadamard(l1));
            l2 == l && s1 == s2
        }),
{
}

/// A controlled Pauli gate undoes itself.
pub proof fn lemma_controlled_undoes_itself(axis: u8, c: u8, t: u8)
    requires
        is_axis(axis),
        c < 4,
        t < 4,
    ensures
        ({
            let (c1, t1, s1) = pair_image(c, t, controlled(axis, c, t));
            let (c2, t2, s2) = pair_image(c1, t1, controlled(axis, c1, t1));
            c2 == c && t2 == t && s1 == s2
        }),
{
}

/// The product of two pairs of labels, up to its phase.
pub open spec fn pair_product(a: (u8, u8), b: (u8, u8)) -> (u8, u8) {
    (product(a.0, b.0), product(a.1, b.1))
}

/// Whether two pairs of labels anticommute.
pub open spec fn pairs_anticommute(a: (u8, u8), b: (u8, u8)) -> bool {
    anticommute(a.0, b.0) != anticommute(a.1, b.1)
}

/// The sign of `i` times the product of two pairs that anticommute.
pub open spec fn pair_turn_sign(a: (u8, u8), b: (u8, u8)) -> i8 {
    if (1 + product_phase(a.0, b.0) + product_phase(a.1, b.1)) % 4 == 0 {
        1
    } else {
        -1i8
    }
}

/// A signed pair of labels with its sines and cosines.
pub open spec fn branch(pair: (u8, u8), sign: i8, n_sin: u8, n_cos: u8) -> CRBranch {
    (pair.0, pair.1, sign, n_sin, n_cos)
}

/// A turn of a pair about `axis` on the target, by an angle, followed by one about
/// Z on the control with that axis on the target, by minus that angle.
pub open spec fn two_turns(axis: u8, pair: (u8, u8)) -> Option<Seq<CRBranch>> {
    let a = (0u8, axis);
    let b = (AXIS_Z, axis);
    let by_a = pair_product(a, pair);
    let by_b = pair_product(b, pair);
    let by_both = pair_product(b, by_a);
    let sign_a = pair_turn_sign(a, pair);
    let sign_b = pair_turn_sign(b, pair);
    let sign_after = pair_turn_sign(b, by_a);
    if pairs_anticommute(a, pair) {
        if pairs_anticommute(b, pair) {
            Some(
                seq![
                    branch(pair, 1, 0, 2),
                    branch(by_a, sign_a, 1, 1),
                    branch(by_both, (-(sign_a * sign_after)) as i8, 2, 0),
                    branch(by_b, (-sign_b) as i8, 1, 1),
                ],
            )
        } else {
            Some(seq![branch(pair, 1, 0, 1), branch(by_a, sign_a, 1, 0)])
        }
    } else if pairs_anticommute(b, pair) {
        Some(seq![branch(pair, 1, 0, 1), branch(by_b, (-sign_b) as i8, 1, 0)])
    } else {
        None
    }
}

/// A controlled rotation is a turn of the target by the half angle, followed by the
/// opposite turn with Z on the control.
#[verifier::rlimit(50)]
pub proof fn lemma_controlled_rotation_is_two_turns(axis: u8, c: u8, t: u8)
    requires
        is_axis(axis),
        c < 4,
        t < 4,
    ensures
        controlled_turned(axis, c, t) == two_turns(axis, (c, t)),
{
    let left: Option<Seq<CRBranch>> = controlled_turned(axis, c, t);
    let right: Option<Seq<CRBranch>> = two_turns(axis, (c, t));
    assert(left is Some <==> right is Some);
    if left is Some {
        assert(left->0 =~= right->0);
    }
}

} // verus!
