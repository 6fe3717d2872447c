//! What one gate makes of one entry of a sum, written out: which words, which
//! coefficients, and which angles.

use vstd::prelude::*;

use crate::bits::is_word;
use crate::model::{copies, grown, images, scaled, Entry, Factor, Gate, Term};
use crate::rules;
use crate::scalar::Arith;

verus! {

/// Whether the angle indices of `after` are those of `before`, with `n` copies of the
/// number `p` behind them.
pub open spec fn appends(before: Seq<u32>, after: Seq<u32>, p: int, n: nat) -> bool {
    &&& after.len() == before.len() + n
    &&& forall|i: int| 0 <= i < before.len() ==> #[trigger] after[i] == before[i]
    &&& forall|i: int| before.len() <= i < after.len() ==> #[trigger] after[i] == p
}

/// Whether a term has the angle indices of another.
pub open spec fn same_angles<S>(t: Term<S>, u: Term<S>) -> bool {
    t.sin_idx == u.sin_idx && t.cos_idx == u.cos_idx
}

/// The number of an angle, a wire or a bound that is kept in 32 bits: what is left of it
/// modulo two to the power 32.
pub proof fn lemma_low_half(p: i64)
    ensures
        (p as u32) as int == (p as int) % 0x1_0000_0000,
        0 <= p <= u32::MAX ==> p as u32 == p,
{
    if p >= 0 {
        let q: u64 = p as u64;
        assert(p as u32 == q as u32) by (bit_vector)
            requires
                q == p as u64,
        ;
        assert(q as u32 == q % 0x1_0000_0000u64) by (bit_vector);
    } else {
        let q: u64 = (p as int + 0x1_0000_0000_0000_0000) as u64;
        let r: u64 = p as u64;
        assert(r as int == p as int + 0x1_0000_0000_0000_0000) by (bit_vector)
            requires
                r == p as u64,
                p < 0,
        ;
        assert(p as u32 == r as u32) by (bit_vector)
            requires
                r == p as u64,
        ;
        assert(r as u32 == r % 0x1_0000_0000u64) by (bit_vector);
        assert((p as int) % 0x1_0000_0000 == (r as int) % 0x1_0000_0000) by {
            vstd::arithmetic::div_mod::lemma_mod_multiples_vanish(
                0x1_0000_0000,
                p as int,
                0x1_0000_0000,
            );
        }
    }
}

/// A rotation about X, Y or Z by the angle whose index is the parameter of its gate, which
/// is kept in 32 bits. A word that is the identity or the axis on the wire goes on as it
/// is. Any other goes on with one cosine of that angle more, and goes over into the word
/// with the third label on the wire, with one sine of that angle more: with a plus where
/// the axis, the label and the third label are in the order of X, Z, Y, wherever that
/// starts, and with a minus elsewhere.
pub proof fn lemma_rotation_terms<S: Arith>(g: Gate, e: Entry<S>, axis: u8)
    requires
        g.kind == 0 && axis == 1 || g.kind == 1 && axis == 3 || g.kind == 2 && axis == 2,
        is_word(e.word),
        g.wire0 < e.word.len(),
    ensures
        ({
            let q = g.wire0 as int;
            let p = g.param as int % 0x1_0000_0000;
            let l = e.word[q];
            let out = images(g, e);
            &&& l == 0 || l == axis ==> out == seq![e]
            &&& l != 0 && l != axis ==> {
                &&& out.len() == 2
                &&& out[0].word == e.word
                &&& out[0].term.coeff == e.term.coeff
                &&& appends(e.term.sin_idx, out[0].term.sin_idx, p, 0)
                &&& appends(e.term.cos_idx, out[0].term.cos_idx, p, 1)
                &&& out[1].word.len() == e.word.len()
                &&& out[1].word[q] == 6 - axis - l
                &&& forall|i: int|
                    0 <= i < e.word.len() && i != q ==> #[trigger] out[1].word[i] == e.word[i]
                &&& out[1].term.coeff == S::spec_of_sign(
                    if axis == 1 && l == 2 || axis == 2 && l == 3 || axis == 3 && l == 1 {
                        1i8
                    } else {
                        -1i8
                    },
                ).spec_times(e.term.coeff)
                &&& appends(e.term.sin_idx, out[1].term.sin_idx, p, 1)
                &&& appends(e.term.cos_idx, out[1].term.cos_idx, p, 0)
            }
        }),
{
    let l: u8 = e.word[g.wire0 as int];
    assert(l < 4);
    lemma_low_half(g.param);
    if l == 0 || l == axis {
        lemma_no_copies(e.term, g);
        assert(images(g, e) =~= seq![e]);
    }
}

proof fn lemma_no_copies<S>(t: Term<S>, g: Gate)
    ensures
        t.sin_idx + copies(g.param as u32, 0) == t.sin_idx,
        t.cos_idx + copies(g.param as u32, 0) == t.cos_idx,
{
    assert(t.sin_idx + copies(g.param as u32, 0) =~= t.sin_idx);
    assert(t.cos_idx + copies(g.param as u32, 0) =~= t.cos_idx);
}

/// S and SX, quarter turns about Z and X. A word that is the identity or the axis on the
/// wire goes on as it is; any other goes over into the word with the third label there,
/// with its coefficient as it is or negated, by the rule of the rotations.
pub proof fn lemma_quarter_terms<S: Arith>(g: Gate, e: Entry<S>, axis: u8)
    requires
        g.kind == 4 && axis == 2 || g.kind == 5 && axis == 1,
        is_word(e.word),
        g.wire0 < e.word.len(),
    ensures
        ({
            let q = g.wire0 as int;
            let l = e.word[q];
            let out = images(g, e);
            &&& l == 0 || l == axis ==> out == seq![e]
            &&& l != 0 && l != axis ==> {
                &&& out.len() == 1
                &&& out[0].word.len() == e.word.len()
                &&& out[0].word[q] == 6 - axis - l
                &&& forall|i: int|
                    0 <= i < e.word.len() && i != q ==> #[trigger] out[0].word[i] == e.word[i]
                &&& out[0].term.coeff == if axis == 1 && l == 2 || axis == 2 && l == 3 {
                    e.term.coeff
                } else {
                    e.term.coeff.spec_negate()
                }
                &&& same_angles(out[0].term, e.term)
            }
        }),
{
    assert(e.word[g.wire0 as int] < 4);
    lemma_no_copies(e.term, g);
    assert(images(g, e).len() == 1);
    if e.word[g.wire0 as int] == 0 || e.word[g.wire0 as int] == axis {
        assert(images(g, e) =~= seq![e]);
    }
}

/// H exchanges X and Z on the wire, and negates where it finds Y.
pub proof fn lemma_hadamard_terms<S: Arith>(g: Gate, e: Entry<S>)
    requires
        g.kind == 3,
        is_word(e.word),
        g.wire0 < e.word.len(),
    ensures
        ({
            let q = g.wire0 as int;
            let l = e.word[q];
            let out = images(g, e);
            &&& out.len() == 1
            &&& out[0].word.len() == e.word.len()
            &&& out[0].word[q] == if l == 1 {
                2u8
            } else if l == 2 {
                1u8
            } else {
                l
            }
            &&& forall|i: int|
                0 <= i < e.word.len() && i != q ==> #[trigger] out[0].word[i] == e.word[i]
            &&& out[0].term.coeff == if l == 3 {
                e.term.coeff.spec_negate()
            } else {
                e.term.coeff
            }
            &&& same_angles(out[0].term, e.term)
        }),
{
    assert(e.word[g.wire0 as int] < 4);
    lemma_no_copies(e.term, g);
}

/// T. A word that is I or Z on the wire goes on as it is. X and Y go on, and go over into
/// one another, each over the square root of two; X goes over into Y with a minus.
pub proof fn lemma_eighth_terms<S: Arith>(g: Gate, e: Entry<S>)
    requires
        g.kind == 6,
        is_word(e.word),
        g.wire0 < e.word.len(),
    ensures
        ({
            let q = g.wire0 as int;
            let l = e.word[q];
            let h = S::spec_inv_sqrt2();
            let out = images(g, e);
            &&& l == 0 || l == 2 ==> out == seq![e]
            &&& l == 1 || l == 3 ==> {
                &&& out.len() == 2
                &&& out[0].word == e.word
                &&& out[0].term.coeff == h.spec_times(e.term.coeff)
                &&& same_angles(out[0].term, e.term)
                &&& out[1].word.len() == e.word.len()
                &&& out[1].word[q] == 4 - l
                &&& forall|i: int|
                    0 <= i < e.word.len() && i != q ==> #[trigger] out[1].word[i] == e.word[i]
                &&& out[1].term.coeff == (if l == 1 {
                    h.spec_negate()
                } else {
                    h
                }).spec_times(e.term.coeff)
                &&& same_angles(out[1].term, e.term)
            }
        }),
{
    assert(e.word[g.wire0 as int] < 4);
    lemma_no_copies(e.term, g);
    if e.word[g.wire0 as int] == 0 || e.word[g.wire0 as int] == 2 {
        assert(images(g, e) =~= seq![e]);
    } else {
        assert(images(g, e)[0].word =~= e.word);
    }
}

/// SWAP exchanges the labels on its two wires, and does nothing else.
pub proof fn lemma_swap_terms<S: Arith>(g: Gate, e: Entry<S>)
    requires
        g.kind == 7,
        g.wire0 < e.word.len(),
        g.wire1 as int % 0x1_0000_0000 < e.word.len(),
    ensures
        ({
            let (q, r) = (g.wire0 as int, g.wire1 as int % 0x1_0000_0000);
            let out = images(g, e);
            &&& out.len() == 1
            &&& out[0].word.len() == e.word.len()
            &&& out[0].word[q] == e.word[r]
            &&& out[0].word[r] == e.word[q]
            &&& forall|i: int|
                0 <= i < e.word.len() && i != q && i != r ==> #[trigger] out[0].word[i]
                    == e.word[i]
            &&& out[0].term == e.term
        }),
{
    lemma_no_copies(e.term, g);
    lemma_low_half(g.wire1);
}

/// A controlled Pauli gate: the label on the target is multiplied by the axis where the
/// control is X or Y, and the label on the control by Z where the target is neither the
/// identity nor the axis. Where both happen there is a minus for X on the control where the
/// axis turns the target with a plus, and for Y where it turns it with a minus. Nothing else
/// changes. Where both wires are one, the label that the target gets stands.
pub proof fn lemma_controlled_terms<S: Arith>(g: Gate, e: Entry<S>, axis: u8)
    requires
        g.kind == 8 && axis == 1 || g.kind == 9 && axis == 3 || g.kind == 10 && axis == 2,
        is_word(e.word),
        g.wire0 < e.word.len(),
        g.wire1 as int % 0x1_0000_0000 < e.word.len(),
    ensures
        ({
            let (q, r) = (g.wire0 as int, g.wire1 as int % 0x1_0000_0000);
            let (c, t) = (e.word[q], e.word[r]);
            let out = images(g, e);
            &&& out.len() == 1
            &&& out[0].word.len() == e.word.len()
            &&& q != r ==> out[0].word[q] == if t == 0 || t == axis {
                c as int
            } else {
                (c + 2) % 4
            }
            &&& out[0].word[r] == if c == 0 || c == 2 {
                t as int
            } else if t == 0 {
                axis as int
            } else if t == axis {
                0
            } else {
                6 - axis - t
            }
            &&& forall|i: int|
                0 <= i < e.word.len() && i != q && i != r ==> #[trigger] out[0].word[i]
                    == e.word[i]
            &&& out[0].term.coeff == if (c == 1 || c == 3) && t != 0 && t != axis && (c == 1) == (
            axis == 1 && t == 2 || axis == 2 && t == 3 || axis == 3 && t == 1) {
                e.term.coeff.spec_negate()
            } else {
                e.term.coeff
            }
            &&& same_angles(out[0].term, e.term)
        }),
{
    let (q, r): (int, int) = (g.wire0 as int, g.wire1 as int % 0x1_0000_0000);
    lemma_low_half(g.wire1);
    assert(e.word[q] < 4 && e.word[r] < 4);
    let code: u8 = (4 * e.word[q] + e.word[r]) as u8;
    assert(code / 4 == e.word[q] && code % 4 == e.word[r] && code < 16);
    lemma_no_copies(e.term, g);
}

/// A controlled rotation by the angle whose index is the parameter of its gate. A pair that
/// commutes goes on as it is. Any other splits into two words with one factor more each, or
/// into four words with two, and every factor is a sine or a cosine of that angle. Off the
/// two wires nothing changes.
pub proof fn lemma_controlled_rotation_terms<S: Arith>(g: Gate, e: Entry<S>)
    requires
        11 <= g.kind <= 13,
        is_word(e.word),
        g.wire0 < e.word.len(),
        g.wire1 as int % 0x1_0000_0000 < e.word.len(),
    ensures
        ({
            let (q, r) = (g.wire0 as int, g.wire1 as int % 0x1_0000_0000);
            let p = g.param as int % 0x1_0000_0000;
            let (c, t) = (e.word[q], e.word[r]);
            let axis = if g.kind == 11 {
                1u8
            } else if g.kind == 12 {
                3u8
            } else {
                2u8
            };
            let out = images(g, e);
            &&& (t == 0 || t == axis) && (c == 0 || c == 2) ==> out == seq![e]
            &&& c == 1 || c == 3 ==> {
                &&& out.len() == 2
                &&& out[0].word == e.word
                &&& appends(e.term.sin_idx, out[0].term.sin_idx, p, 0)
                &&& appends(e.term.cos_idx, out[0].term.cos_idx, p, 1)
                &&& appends(e.term.sin_idx, out[1].term.sin_idx, p, 1)
                &&& appends(e.term.cos_idx, out[1].term.cos_idx, p, 0)
            }
            &&& (c == 0 || c == 2) && t != 0 && t != axis ==> {
                &&& out.len() == 4
                &&& out[0].word == e.word
                &&& appends(e.term.sin_idx, out[0].term.sin_idx, p, 0)
                &&& appends(e.term.cos_idx, out[0].term.cos_idx, p, 2)
                &&& appends(e.term.sin_idx, out[1].term.sin_idx, p, 1)
                &&& appends(e.term.cos_idx, out[1].term.cos_idx, p, 1)
                &&& appends(e.term.sin_idx, out[2].term.sin_idx, p, 2)
                &&& appends(e.term.cos_idx, out[2].term.cos_idx, p, 0)
                &&& appends(e.term.sin_idx, out[3].term.sin_idx, p, 1)
                &&& appends(e.term.cos_idx, out[3].term.cos_idx, p, 1)
            }
            &&& forall|k: int, i: int|
                0 <= k < out.len() && 0 <= i < e.word.len() && i != q && i != r
                    ==> #[trigger] out[k].word[i] == e.word[i]
            &&& forall|k: int|
                0 <= k < out.len() ==> (#[trigger] out[k]).word.len() == e.word.len() && (
                out[k].term.coeff == e.term.coeff || out[k].term.coeff == S::spec_of_sign(
                    1i8,
                ).spec_times(e.term.coeff) || out[k].term.coeff == S::spec_of_sign(
                    -1i8,
                ).spec_times(e.term.coeff))
        }),
{
    let (q, r): (int, int) = (g.wire0 as int, g.wire1 as int % 0x1_0000_0000);
    lemma_low_half(g.wire1);
    lemma_low_half(g.param);
    assert(e.word[q] < 4 && e.word[r] < 4);
    let code: u8 = (4 * e.word[q] + e.word[r]) as u8;
    assert(code / 4 == e.word[q] && code % 4 == e.word[r] && code < 16);
    lemma_no_copies(e.term, g);
    let axis: u8 = if g.kind == 11 {
        rules::AXIS_X
    } else if g.kind == 12 {
        rules::AXIS_Y
    } else {
        rules::AXIS_Z
    };
    if (e.word[r] == 0 || e.word[r] == axis) && (e.word[q] == 0 || e.word[q] == 2) {
        assert(images(g, e) =~= seq![e]);
    } else {
        assert(images(g, e)[0].word =~= e.word);
    }
}

/// The words and the signs of a controlled rotation. The axis turns the target as a rotation
/// does; together with Z on the control it turns the pair the other way. A control of X or
/// Y meets one of the two turns, any other control both or neither.
pub proof fn lemma_controlled_rotation_words<S: Arith>(g: Gate, e: Entry<S>, axis: u8)
    requires
        g.kind == 11 && axis == 1 || g.kind == 12 && axis == 3 || g.kind == 13 && axis == 2,
        is_word(e.word),
        g.wire0 < e.word.len(),
        g.wire1 as int % 0x1_0000_0000 < e.word.len(),
        g.wire0 != g.wire1 as int % 0x1_0000_0000,
    ensures
        ({
            let (q, r) = (g.wire0 as int, g.wire1 as int % 0x1_0000_0000);
            let (c, t) = (e.word[q], e.word[r]);
            let out = images(g, e);
            let plus = S::spec_of_sign(1i8).spec_times(e.term.coeff);
            let minus = S::spec_of_sign(-1i8).spec_times(e.term.coeff);
            let forwards = axis == 1 && t == 2 || axis == 2 && t == 3 || axis == 3 && t == 1;
            &&& (c == 1 || c == 3) && t != 0 && t != axis ==> {
                &&& out[0].term.coeff == plus
                &&& out[1].word[q] == c
                &&& out[1].word[r] == 6 - axis - t
                &&& out[1].term.coeff == if forwards {
                    plus
                } else {
                    minus
                }
            }
            &&& (c == 1 || c == 3) && (t == 0 || t == axis) ==> {
                &&& out[0].term.coeff == plus
                &&& out[1].word[q] == (c + 2) % 4
                &&& out[1].word[r] == axis - t
                &&& out[1].term.coeff == if c == 1 {
                    plus
                } else {
                    minus
                }
            }
            &&& (c == 0 || c == 2) && t != 0 && t != axis ==> {
                &&& out[0].term.coeff == plus
                &&& out[1].word[q] == c
                &&& out[1].word[r] == 6 - axis - t
                &&& out[1].term.coeff == if forwards {
                    plus
                } else {
                    minus
                }
                &&& out[2].word[q] == (c + 2) % 4
                &&& out[2].word[r] == t
                &&& out[2].term.coeff == plus
                &&& out[3].word[q] == (c + 2) % 4
                &&& out[3].word[r] == 6 - axis - t
                &&& out[3].term.coeff == if forwards {
                    minus
                } else {
                    plus
                }
            }
        }),
{
    let (q, r): (int, int) = (g.wire0 as int, g.wire1 as int % 0x1_0000_0000);
    lemma_low_half(g.wire1);
    assert(e.word[q] < 4 && e.word[r] < 4);
    let code: u8 = (4 * e.word[q] + e.word[r]) as u8;
    assert(code / 4 == e.word[q] && code % 4 == e.word[r] && code < 16);
}

/// A term that grows: its coefficient is multiplied by the factor, and `n_sin` sines and
/// `n_cos` cosines of the angle `p` come behind those that it has, however many they are.
pub proof fn lemma_grown_terms<S: Arith>(
    factor: Factor,
    n_sin: nat,
    n_cos: nat,
    p: u32,
    t: Term<S>,
)
    ensures
        appends(t.sin_idx, grown(factor, n_sin, n_cos, p, t).sin_idx, p as int, n_sin),
        appends(t.cos_idx, grown(factor, n_sin, n_cos, p, t).cos_idx, p as int, n_cos),
        grown(factor, n_sin, n_cos, p, t).coeff == match factor {
            Factor::One => t.coeff,
            Factor::Minus => t.coeff.spec_negate(),
            Factor::Sign(sign) => S::spec_of_sign(sign).spec_times(t.coeff),
            Factor::Phase(negative) => if negative {
                S::spec_inv_sqrt2().spec_negate().spec_times(t.coeff)
            } else {
                S::spec_inv_sqrt2().spec_times(t.coeff)
            },
        },
        scaled(factor, t.coeff) == grown(factor, n_sin, n_cos, p, t).coeff,
{
}

/// The tables of the gates know the labels 0 to 3 and the codes 0 to 15 only, and leave the
/// identity alone.
pub proof fn lemma_tables_know_labels_only(axis: u8, label: u8)
    ensures
        label == 0 || label >= 4 ==> {
            &&& rules::turned(axis, label) is None
            &&& rules::hadamard(label) is None
            &&& rules::eighth_turned(label) is None
        },
        axis != 0 && (label == 0 || label >= 16) ==> {
            &&& rules::controlled_code(axis, label) is None
            &&& rules::controlled_turned_code(axis, label) is None
        },
{
}

} // verus!
