//! How each gate acts on Pauli labels, in the Heisenberg picture.
//!
//! Labels are I = 0, X = 1, Z = 2, Y = 3. The tables are stated by the algebra of
//! the Pauli matrices: up to sign, the product of two labels adds their x-parts
//! and their z-parts, and two labels anticommute where they differ and neither is
//! the identity.

use vstd::prelude::*;

use crate::bits::{pack, x_part, z_part};

verus! {

/// Gate kind codes.
pub const RX: u8 = 0;

pub const RY: u8 = 1;

pub const RZ: u8 = 2;

pub const H: u8 = 3;

pub const S: u8 = 4;

pub const SX: u8 = 5;

pub const T: u8 = 6;

pub const SWAP: u8 = 7;

pub const CNOT: u8 = 8;

pub const CY: u8 = 9;

pub const CZ: u8 = 10;

pub const CRX: u8 = 11;

pub const CRY: u8 = 12;

pub const CRZ: u8 = 13;

/// The labels of the three axes.
pub const AXIS_X: u8 = 1;

pub const AXIS_Z: u8 = 2;

pub const AXIS_Y: u8 = 3;

/// One branch of a controlled rotation: the labels on control and target, the
/// sign, and how many sines and cosines of the half angle it is multiplied by.
pub type CRBranch = (u8, u8, i8, u8, u8);

/// The product of two labels, up to its phase.
pub open spec fn product(a: u8, b: u8) -> u8 {
    pack(x_part(a) != x_part(b), z_part(a) != z_part(b))
}

/// Whether two labels anticommute.
pub open spec fn anticommute(a: u8, b: u8) -> bool {
    a != 0 && b != 0 && a != b
}

/// The axis before `axis` in the cycle X, Y, Z.
pub open spec fn axis_before(axis: u8) -> u8 {
    if axis == AXIS_X {
        AXIS_Z
    } else if axis == AXIS_Y {
        AXIS_X
    } else {
        AXIS_Y
    }
}

/// The sign with which a turn about `axis` carries `label` to their product: plus
/// for the axis before it in the cycle, minus for the one after it.
pub open spec fn turn_sign(axis: u8, label: u8) -> i8 {
    if label == axis_before(axis) {
        1
    } else {
        -1i8
    }
}

/// A turn about `axis`: a label that anticommutes with the axis goes over into
/// their product, with a sign; any other stays.
pub open spec fn turned(axis: u8, label: u8) -> Option<(u8, i8)> {
    if label < 4 && anticommute(axis, label) {
        Some((product(axis, label), turn_sign(axis, label)))
    } else {
        None
    }
}

/// The Hadamard gate exchanges X and Z and turns Y over.
pub open spec fn hadamard(label: u8) -> Option<(u8, i8)> {
    if label == 0 || label >= 4 {
        None
    } else {
        Some((pack(z_part(label), x_part(label)), if label == AXIS_Y {
            -1i8
        } else {
            1
        }))
    }
}

/// An eighth turn about Z: the label itself and its quarter turn, each over the
/// square root of two. The second component is whether the phase is negative.
pub open spec fn eighth_turned(label: u8) -> Option<((u8, bool), (u8, bool))> {
    match turned(AXIS_Z, label) {
        Some((out, sign)) => Some(((label, false), (out, sign < 0))),
        None => None,
    }
}

/// A gate that applies the Pauli matrix `axis` to the target where the control is
/// set. An x-part on the control multiplies the target by `axis`; a target that
/// anticommutes with `axis` multiplies the control by Z. The sign is negative
/// where both happen and the two labels are X with the axis before, or Y with the
/// axis after.
pub open spec fn controlled(axis: u8, control: u8, target: u8) -> Option<(u8, u8, i8)> {
    let flips_target = x_part(control);
    let flips_control = anticommute(axis, target);
    if !flips_target && !flips_control {
        None
    } else {
        Some(
            (
                if flips_control {
                    product(control, AXIS_Z)
                } else {
                    control
                },
                if flips_target {
                    product(target, axis)
                } else {
                    target
                },
                if flips_target && flips_control && (control == AXIS_X) == (target == axis_before(
                    axis,
                )) {
                    -1i8
                } else {
                    1
                },
            ),
        )
    }
}

/// A rotation of the target about `axis` where the control is set. Its half angle
/// enters by cosines and sines.
pub open spec fn controlled_turned(axis: u8, control: u8, target: u8) -> Option<Seq<CRBranch>> {
    let other_control = product(control, AXIS_Z);
    let other_target = product(target, axis);
    let sign = turn_sign(axis, target);
    if anticommute(axis, target) {
        if x_part(control) {
            Some(seq![(control, target, 1i8, 0u8, 1u8), (control, other_target, sign, 1u8, 0u8)])
        } else {
            Some(
                seq![
                    (control, target, 1i8, 0u8, 2u8),
                    (control, other_target, sign, 1u8, 1u8),
                    (other_control, target, 1i8, 2u8, 0u8),
                    (other_control, other_target, (-sign) as i8, 1u8, 1u8),
                ],
            )
        }
    } else if x_part(control) {
        Some(
            seq![
                (control, target, 1i8, 0u8, 1u8),
                (
                    other_control,
                    other_target,
                    if control == AXIS_X {
                        1i8
                    } else {
                        -1i8
                    },
                    1u8,
                    0u8,
                ),
            ],
        )
    } else {
        None
    }
}

/// `controlled` on the code `4 * control + target`.
pub open spec fn controlled_code(axis: u8, code: u8) -> Option<(u8, u8, i8)> {
    if code < 16 {
        controlled(axis, code / 4, code % 4)
    } else {
        None
    }
}

/// `controlled_turned` on the code `4 * control + target`.
pub open spec fn controlled_turned_code(axis: u8, code: u8) -> Option<Seq<CRBranch>> {
    if code < 16 {
        controlled_turned(axis, code / 4, code % 4)
    } else {
        None
    }
}

/// The branches of a controlled rotation, as a sequence.
pub open spec fn branches_view(r: Option<Vec<CRBranch>>) -> Option<Seq<CRBranch>> {
    match r {
        Some(v) => Some(v@),
        None => None,
    }
}

// ---------------------------------------------------------------------
// Single-qubit tables
// ---------------------------------------------------------------------

/// RX: the anticommuting branch, or nothing where `label` commutes with X.
pub fn rx_rule(label: u8) -> (r: Option<(u8, i8)>)
    ensures
        r == turned(AXIS_X, label),
{
    match label {
        3 => Some((2, -1)),  // Y -> Z
        2 => Some((3, 1)),  // Z -> Y
        _ => None,
    }
}

/// RY: the anticommuting branch, or nothing where `label` commutes with Y.
pub fn ry_rule(label: u8) -> (r: Option<(u8, i8)>)
    ensures
        r == turned(AXIS_Y, label),
{
    match label {
        1 => Some((2, 1)),  // X -> Z
        2 => Some((1, -1)),  // Z -> X
        _ => None,
    }
}

/// RZ: the anticommuting branch, or nothing where `label` commutes with Z.
pub fn rz_rule(label: u8) -> (r: Option<(u8, i8)>)
    ensures
        r == turned(AXIS_Z, label),
{
    match label {
        1 => Some((3, -1)),  // X -> Y
        3 => Some((1, 1)),  // Y -> X
        _ => None,
    }
}

/// H: the image of `label`, or nothing for the identity.
pub fn h_rule(label: u8) -> (r: Option<(u8, i8)>)
    ensures
        r == hadamard(label),
{
    match label {
        1 => Some((2, 1)),  // X -> Z
        3 => Some((3, -1)),  // Y -> -Y
        2 => Some((1, 1)),  // Z -> X
        _ => None,
    }
}

/// S: a quarter turn about Z.
pub fn s_rule(label: u8) -> (r: Option<(u8, i8)>)
    ensures
        r == turned(AXIS_Z, label),
{
    match label {
        1 => Some((3, -1)),  // X -> -Y
        3 => Some((1, 1)),  // Y -> X
        _ => None,
    }
}

/// SX: a quarter turn about X.
pub fn sx_rule(label: u8) -> (r: Option<(u8, i8)>)
    ensures
        r == turned(AXIS_X, label),
{
    match label {
        3 => Some((2, -1)),  // Y -> -Z
        2 => Some((3, 1)),  // Z -> Y
        _ => None,
    }
}

/// T: the two branches of an eighth turn about Z, each with whether its phase is
/// minus one over the square root of two.
pub fn t_rule(label: u8) -> (r: Option<((u8, bool), (u8, bool))>)
    ensures
        r == eighth_turned(label),
{
    match label {
        1 => Some(((1, false), (3, true))),  // X -> +X/sqrt2 - Y/sqrt2
        3 => Some(((3, false), (1, false))),  // Y -> +Y/sqrt2 + X/sqrt2
        _ => None,
    }
}

// ---------------------------------------------------------------------
// Two-qubit tables, on the code 4 * control + target
// ---------------------------------------------------------------------

/// CNOT: labels on control and target, and a sign; nothing where the pair stays.
pub fn cnot_rule(code: u8) -> (r: Option<(u8, u8, i8)>)
    ensures
        r == controlled_code(AXIS_X, code),
{
    match code {
        3 => Some((2, 3, 1)),  // IY -> ZY
        2 => Some((2, 2, 1)),  // IZ -> ZZ
        4 => Some((1, 1, 1)),  // XI -> XX
        5 => Some((1, 0, 1)),  // XX -> XI
        7 => Some((3, 2, 1)),  // XY -> YZ
        6 => Some((3, 3, -1)),  // XZ -> -YY
        12 => Some((3, 1, 1)),  // YI -> YX
        13 => Some((3, 0, 1)),  // YX -> YI
        15 => Some((1, 2, -1)),  // YY -> -XZ
        14 => Some((1, 3, 1)),  // YZ -> XY
        11 => Some((0, 3, 1)),  // ZY -> IY
        10 => Some((0, 2, 1)),  // ZZ -> IZ
        _ => None,
    }
}

/// CY: labels on control and target, and a sign; nothing where the pair stays.
pub fn cy_rule(code: u8) -> (r: Option<(u8, u8, i8)>)
    ensures
        r == controlled_code(AXIS_Y, code),
{
    match code {
        1 => Some((2, 1, 1)),  // IX -> ZX
        2 => Some((2, 2, 1)),  // IZ -> ZZ
        4 => Some((1, 3, 1)),  // XI -> XY
        5 => Some((3, 2, -1)),  // XX -> -YZ
        7 => Some((1, 0, 1)),  // XY -> XI
        6 => Some((3, 1, 1)),  // XZ -> YX
        12 => Some((3, 3, 1)),  // YI -> YY
        13 => Some((1, 2, 1)),  // YX -> XZ
        15 => Some((3, 0, 1)),  // YY -> YI
        14 => Some((1, 1, -1)),  // YZ -> -XX
        9 => Some((0, 1, 1)),  // ZX -> IX
        10 => Some((0, 2, 1)),  // ZZ -> IZ
        _ => None,
    }
}

/// CZ: labels on control and target, and a sign; nothing where the pair stays.
pub fn cz_rule(code: u8) -> (r: Option<(u8, u8, i8)>)
    ensures
        r == controlled_code(AXIS_Z, code),
{
    match code {
        1 => Some((2, 1, 1)),  // IX -> ZX
        3 => Some((2, 3, 1)),  // IY -> ZY
        4 => Some((1, 2, 1)),  // XI -> XZ
        5 => Some((3, 3, 1)),  // XX -> YY
        7 => Some((3, 1, -1)),  // XY -> -YX
        6 => Some((1, 0, 1)),  // XZ -> XI
        12 => Some((3, 2, 1)),  // YI -> YZ
        13 => Some((1, 3, -1)),  // YX -> -XY
        15 => Some((1, 1, 1)),  // YY -> XX
        14 => Some((3, 0, 1)),  // YZ -> YI
        9 => Some((0, 1, 1)),  // ZX -> IX
        11 => Some((0, 3, 1)),  // ZY -> IY
        _ => None,
    }
}

/// CRX: the branches of a controlled rotation about X; nothing where the pair
/// stays.
pub fn crx_rule(code: u8) -> (r: Option<Vec<CRBranch>>)
    ensures
        branches_view(r) == controlled_turned_code(AXIS_X, code),
{
    let r: Option<Vec<CRBranch>> = match code {
        3 => Some(vec![(0, 3, 1, 0, 2), (0, 2, -1, 1, 1), (2, 3, 1, 2, 0), (2, 2, 1, 1, 1)]),  // IY
        2 => Some(vec![(0, 2, 1, 0, 2), (0, 3, 1, 1, 1), (2, 2, 1, 2, 0), (2, 3, -1, 1, 1)]),  // IZ
        4 => Some(vec![(1, 0, 1, 0, 1), (3, 1, 1, 1, 0)]),  // XI
        5 => Some(vec![(1, 1, 1, 0, 1), (3, 0, 1, 1, 0)]),  // XX
        7 => Some(vec![(1, 3, 1, 0, 1), (1, 2, -1, 1, 0)]),  // XY
        6 => Some(vec![(1, 2, 1, 0, 1), (1, 3, 1, 1, 0)]),  // XZ
        12 => Some(vec![(3, 0, 1, 0, 1), (1, 1, -1, 1, 0)]),  // YI
        13 => Some(vec![(3, 1, 1, 0, 1), (1, 0, -1, 1, 0)]),  // YX
        15 => Some(vec![(3, 3, 1, 0, 1), (3, 2, -1, 1, 0)]),  // YY
        14 => Some(vec![(3, 2, 1, 0, 1), (3, 3, 1, 1, 0)]),  // YZ
        11 => Some(vec![(2, 3, 1, 0, 2), (2, 2, -1, 1, 1), (0, 3, 1, 2, 0), (0, 2, 1, 1, 1)]),  // ZY
        10 => Some(vec![(2, 2, 1, 0, 2), (2, 3, 1, 1, 1), (0, 2, 1, 2, 0), (0, 3, -1, 1, 1)]),  // ZZ
        _ => None,
    };
    proof {
        lemma_same_branches(r, controlled_turned_code(AXIS_X, code));
    }
    r
}

/// CRY: the branches of a controlled rotation about Y; nothing where the pair
/// stays.
pub fn cry_rule(code: u8) -> (r: Option<Vec<CRBranch>>)
    ensures
        branches_view(r) == controlled_turned_code(AXIS_Y, code),
{
    let r: Option<Vec<CRBranch>> = match code {
        1 => Some(vec![(0, 1, 1, 0, 2), (0, 2, 1, 1, 1), (2, 1, 1, 2, 0), (2, 2, -1, 1, 1)]),  // IX
        2 => Some(vec![(0, 2, 1, 0, 2), (0, 1, -1, 1, 1), (2, 2, 1, 2, 0), (2, 1, 1, 1, 1)]),  // IZ
        4 => Some(vec![(1, 0, 1, 0, 1), (3, 3, 1, 1, 0)]),  // XI
        5 => Some(vec![(1, 1, 1, 0, 1), (1, 2, 1, 1, 0)]),  // XX
        7 => Some(vec![(1, 3, 1, 0, 1), (3, 0, 1, 1, 0)]),  // XY
        6 => Some(vec![(1, 2, 1, 0, 1), (1, 1, -1, 1, 0)]),  // XZ
        12 => Some(vec![(3, 0, 1, 0, 1), (1, 3, -1, 1, 0)]),  // YI
        13 => Some(vec![(3, 1, 1, 0, 1), (3, 2, 1, 1, 0)]),  // YX
        15 => Some(vec![(3, 3, 1, 0, 1), (1, 0, -1, 1, 0)]),  // YY
        14 => Some(vec![(3, 2, 1, 0, 1), (3, 1, -1, 1, 0)]),  // YZ
        9 => Some(vec![(2, 1, 1, 0, 2), (2, 2, 1, 1, 1), (0, 1, 1, 2, 0), (0, 2, -1, 1, 1)]),  // ZX
        10 => Some(vec![(2, 2, 1, 0, 2), (2, 1, -1, 1, 1), (0, 2, 1, 2, 0), (0, 1, 1, 1, 1)]),  // ZZ
        _ => None,
    };
    proof {
        lemma_same_branches(r, controlled_turned_code(AXIS_Y, code));
    }
    r
}

/// CRZ: the branches of a controlled rotation about Z; nothing where the pair
/// stays.
pub fn crz_rule(code: u8) -> (r: Option<Vec<CRBranch>>)
    ensures
        branches_view(r) == controlled_turned_code(AXIS_Z, code),
{
    let r: Option<Vec<CRBranch>> = match code {
        1 => Some(vec![(0, 1, 1, 0, 2), (0, 3, -1, 1, 1), (2, 1, 1, 2, 0), (2, 3, 1, 1, 1)]),  // IX
        3 => Some(vec![(0, 3, 1, 0, 2), (0, 1, 1, 1, 1), (2, 3, 1, 2, 0), (2, 1, -1, 1, 1)]),  // IY
        4 => Some(vec![(1, 0, 1, 0, 1), (3, 2, 1, 1, 0)]),  // XI
        5 => Some(vec![(1, 1, 1, 0, 1), (1, 3, -1, 1, 0)]),  // XX
        7 => Some(vec![(1, 3, 1, 0, 1), (1, 1, 1, 1, 0)]),  // XY
        6 => Some(vec![(1, 2, 1, 0, 1), (3, 0, 1, 1, 0)]),  // XZ
        12 => Some(vec![(3, 0, 1, 0, 1), (1, 2, -1, 1, 0)]),  // YI
        13 => Some(vec![(3, 1, 1, 0, 1), (3, 3, -1, 1, 0)]),  // YX
        15 => Some(vec![(3, 3, 1, 0, 1), (3, 1, 1, 1, 0)]),  // YY
        14 => Some(vec![(3, 2, 1, 0, 1), (1, 0, -1, 1, 0)]),  // YZ
        9 => Some(vec![(2, 1, 1, 0, 2), (2, 3, -1, 1, 1), (0, 1, 1, 2, 0), (0, 3, 1, 1, 1)]),  // ZX
        11 => Some(vec![(2, 3, 1, 0, 2), (2, 1, 1, 1, 1), (0, 3, 1, 2, 0), (0, 1, -1, 1, 1)]),  // ZY
        _ => None,
    };
    proof {
        lemma_same_branches(r, controlled_turned_code(AXIS_Z, code));
    }
    r
}

proof fn lemma_same_branches(r: Option<Vec<CRBranch>>, s: Option<Seq<CRBranch>>)
    requires
        r is Some <==> s is Some,
        r is Some ==> r->0@.len() == s->0.len() && forall|i: int|
            0 <= i < s->0.len() ==> r->0@[i] == #[trigger] s->0[i],
    ensures
        branches_view(r) == s,
{
    if r is Some {
        assert(r->0@ =~= s->0);
    }
}

} // verus!
