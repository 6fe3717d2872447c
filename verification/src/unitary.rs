//! The gates as products of turns, and that what a gate makes of a word is what its
//! turns make of it.

use vstd::prelude::*;

use crate::bits::is_word;
use crate::conjugation::{
    agree, all_turns, from_real, is_pauli, is_turn, lemma_turn_adds, lemma_turn_respects,
    lemma_words, scale, sum, times_i, turn, turn_all, turn_back, word_phase, word_product,
    words_anticommute, Element, Turn,
};
use crate::model::{
    branches, clifford_branches, controlled_branches, controlled_rotation_branches, is_two_qubit,
    pair_code, param_index, put, rotation_branches, second_wire, sign_factor, swap_branches,
    t_branches, Branch, Factor, Gate,
};
use crate::norm::{branch_weight, factor_value, lemma_mul, lemma_powers, power};
use crate::pauli_group::{
    is_axis, lemma_controlled_rotation_is_two_turns, pair_image, pair_product,
    pair_turn_sign, pairs_anticommute, product_phase, two_turns,
};
use crate::pruning::is_proper;
use crate::rules;
use crate::rules::product;
use crate::scalar::{is_inv_sqrt2, Arith};

verus! {

// ---------------------------------------------------------------------
// Gates
// ---------------------------------------------------------------------

/// The angles of a circuit, by their sines and cosines and by those of their halves.
pub struct Angles {
    pub sins: Seq<real>,
    pub coss: Seq<real>,
    pub half_sins: Seq<real>,
    pub half_coss: Seq<real>,
}

/// Whether the sine and the cosine of the angle `p` are those of twice its half.
pub open spec fn is_angle(angles: Angles, p: int) -> bool {
    let (a, b) = (angles.half_coss[p], angles.half_sins[p]);
    &&& a * a + b * b == 1real
    &&& angles.coss[p] == a * a - b * b
    &&& angles.sins[p] == 2real * (a * b)
}

/// The identity on `n` qubits.
pub open spec fn identity_word(n: nat) -> Seq<u8> {
    Seq::new(n, |q: int| 0u8)
}

/// The word that is `l` on the qubit `q`, and the identity elsewhere.
pub open spec fn single(n: nat, q: u32, l: u8) -> Seq<u8> {
    identity_word(n).update(q as int, l)
}

/// The word that is `l` on the qubit `q` and `m` on the qubit `r`, and the identity
/// elsewhere.
pub open spec fn double(n: nat, q: u32, l: u8, r: u32, m: u8) -> Seq<u8> {
    single(n, q, l).update(r as int, m)
}

/// A turn by the angle `p`.
pub open spec fn turn_by(axis: Seq<u8>, angles: Angles, p: u32) -> Turn {
    Turn {
        axis,
        half_cos: angles.half_coss[p as int],
        half_sin: angles.half_sins[p as int],
        cos: angles.coss[p as int],
        sin: angles.sins[p as int],
    }
}

/// A quarter turn: `1 - i axis`, up to a number.
pub open spec fn quarter(axis: Seq<u8>) -> Turn {
    Turn { axis, half_cos: 1real, half_sin: 1real, cos: 0real, sin: 1real }
}

/// An eighth turn. The cosine and the sine of its half angle are in the ratio of
/// `1 + h` and `h`, where `h` is one over the square root of two.
pub open spec fn eighth(axis: Seq<u8>) -> Turn {
    let h = real::spec_inv_sqrt2();
    Turn { axis, half_cos: 1real + h, half_sin: h, cos: h, sin: h }
}

/// The controlled Pauli gate `axis`, up to a number: with `Z` on the control and `A` on
/// the target it is `(1 + i Z) (1 + i A) (1 - i Z A)`. `gate_forms` multiplies it out.
pub open spec fn controlled_turns(n: nat, control: u32, target: u32, axis: u8) -> Seq<Turn> {
    seq![
        turn_back(quarter(single(n, control, rules::AXIS_Z))),
        turn_back(quarter(single(n, target, axis))),
        quarter(double(n, control, rules::AXIS_Z, target, axis)),
    ]
}

/// The controlled rotation about `axis`: a turn of the target by the angle `p`, and the
/// turn back with Z on the control, which undoes it where the control is clear and
/// doubles it where it is set.
pub open spec fn controlled_rotation_turns(
    n: nat,
    control: u32,
    target: u32,
    axis: u8,
    angles: Angles,
    p: u32,
) -> Seq<Turn> {
    seq![
        turn_by(single(n, target, axis), angles, p),
        turn_back(turn_by(double(n, control, rules::AXIS_Z, target, axis), angles, p)),
    ]
}

/// A gate on `n` qubits as a product of turns, up to a number. H is
/// `(1 - i Z) (1 - i X) (1 - i Z)` and SWAP is `(1 - i XX) (1 - i YY) (1 - i ZZ)`;
/// `gate_forms` multiplies them out.
pub open spec fn gate_turns(g: Gate, n: nat, angles: Angles) -> Seq<Turn> {
    let (q, r, p) = (g.wire0, second_wire(g), param_index(g));
    let (x, y, z) = (rules::AXIS_X, rules::AXIS_Y, rules::AXIS_Z);
    match g.kind {
        rules::RX => seq![turn_by(single(n, q, x), angles, p)],
        rules::RY => seq![turn_by(single(n, q, y), angles, p)],
        rules::RZ => seq![turn_by(single(n, q, z), angles, p)],
        rules::H => seq![
            quarter(single(n, q, z)),
            quarter(single(n, q, x)),
            quarter(single(n, q, z)),
        ],
        rules::S => seq![quarter(single(n, q, z))],
        rules::SX => seq![quarter(single(n, q, x))],
        rules::T => seq![eighth(single(n, q, z))],
        rules::SWAP => seq![
            quarter(double(n, q, x, r, x)),
            quarter(double(n, q, y, r, y)),
            quarter(double(n, q, z, r, z)),
        ],
        rules::CNOT => controlled_turns(n, q, r, x),
        rules::CY => controlled_turns(n, q, r, y),
        rules::CZ => controlled_turns(n, q, r, z),
        rules::CRX => controlled_rotation_turns(n, q, r, x, angles, p),
        rules::CRY => controlled_rotation_turns(n, q, r, y, angles, p),
        _ => controlled_rotation_turns(n, q, r, z, angles, p),
    }
}

/// Whether a kind of gate turns by an angle of the circuit.
pub open spec fn turns_by_angle(kind: u8) -> bool {
    kind <= rules::RZ || rules::CRX <= kind
}

/// Whether the wires of a gate are two where its kind has two.
pub open spec fn has_own_wires(g: Gate) -> bool {
    is_two_qubit(g.kind) ==> g.wire0 != second_wire(g)
}

// ---------------------------------------------------------------------
// Axes
// ---------------------------------------------------------------------

proof fn lemma_phase_update(a: Seq<u8>, b: Seq<u8>, q: int, l: u8)
    requires
        a.len() == b.len(),
        0 <= q < a.len(),
    ensures
        word_phase(a.update(q, l), b) == word_phase(a, b) - product_phase(a[q], b[q])
            + product_phase(l, b[q]),
    decreases a.len(),
{
    if q == a.len() - 1 {
        assert(a.update(q, l).drop_last() =~= a.drop_last());
    } else {
        assert(a.update(q, l).drop_last() =~= a.drop_last().update(q, l));
        lemma_phase_update(a.drop_last(), b.drop_last(), q, l);
    }
}

proof fn lemma_identity_phase(b: Seq<u8>)
    ensures
        word_phase(identity_word(b.len()), b) == 0,
    decreases b.len(),
{
    if b.len() > 0 {
        assert(identity_word(b.len()).drop_last() =~= identity_word(b.drop_last().len()));
        lemma_identity_phase(b.drop_last());
    }
}

pub(crate) proof fn lemma_single(w: Seq<u8>, q: u32, l: u8)
    requires
        is_word(w),
        q < w.len(),
        l < 4,
    ensures
        is_pauli(single(w.len(), q, l), w.len()),
        word_phase(single(w.len(), q, l), w) == product_phase(l, w[q as int]),
        word_product(single(w.len(), q, l), w) == w.update(q as int, product(l, w[q as int])),
{
    lemma_identity_phase(w);
    lemma_phase_update(identity_word(w.len()), w, q as int, l);
    assert forall|i: int| 0 <= i < w.len() implies word_product(single(w.len(), q, l), w)[i]
        == w.update(q as int, product(l, w[q as int]))[i] by {
        assert(w[i] < 4);
    }
    assert(word_product(single(w.len(), q, l), w) =~= w.update(
        q as int,
        product(l, w[q as int]),
    ));
}

pub(crate) proof fn lemma_double(w: Seq<u8>, q: u32, l: u8, r: u32, m: u8)
    requires
        is_word(w),
        q < w.len(),
        r < w.len(),
        q != r,
        l < 4,
        m < 4,
    ensures
        is_pauli(double(w.len(), q, l, r, m), w.len()),
        word_phase(double(w.len(), q, l, r, m), w) == product_phase(l, w[q as int]) + product_phase(
            m,
            w[r as int],
        ),
        word_product(double(w.len(), q, l, r, m), w) == w.update(
            q as int,
            product(l, w[q as int]),
        ).update(r as int, product(m, w[r as int])),
{
    lemma_single(w, q, l);
    lemma_phase_update(single(w.len(), q, l), w, r as int, m);
    let v: Seq<u8> = w.update(q as int, product(l, w[q as int])).update(
        r as int,
        product(m, w[r as int]),
    );
    assert forall|i: int| 0 <= i < w.len() implies word_product(double(w.len(), q, l, r, m), w)[i]
        == v[i] by {
        assert(w[i] < 4);
    }
    assert(word_product(double(w.len(), q, l, r, m), w) =~= v);
}

// ---------------------------------------------------------------------
// Turns of one word
// ---------------------------------------------------------------------

/// The element that is `x` times the word `w`.
pub open spec fn point(x: real, w: Seq<u8>) -> Element {
    |v: Seq<u8>|
        if v == w {
            from_real(x)
        } else {
            from_real(0real)
        }
}

/// Plus or minus a number.
pub open spec fn signed(negative: bool, x: real) -> real {
    if negative {
        -x
    } else {
        x
    }
}

/// Whether `i axis` times a word that anticommutes with it has a minus.
pub open spec fn turns_negative(axis: Seq<u8>, w: Seq<u8>) -> bool {
    (1 + word_phase(axis, w)) % 4 != 0
}

/// What a turn makes of a word.
pub open spec fn turned_point(t: Turn, x: real, w: Seq<u8>) -> Element {
    if words_anticommute(t.axis, w) {
        sum(
            point(t.cos * x, w),
            point(t.sin * signed(turns_negative(t.axis, w), x), word_product(t.axis, w)),
        )
    } else {
        point(x, w)
    }
}

proof fn lemma_turn_point(t: Turn, x: real, w: Seq<u8>, n: nat)
    requires
        is_pauli(t.axis, n),
        is_pauli(w, n),
    ensures
        agree(n, turn(t, point(x, w)), turned_point(t, x, w)),
{
    lemma_words(t.axis, w);
    let moved: Seq<u8> = word_product(t.axis, w);
    let y: real = signed(turns_negative(t.axis, w), x);
    lemma_mul(t.cos, 0real, 0real);
    lemma_mul(t.sin, 0real, 0real);
    assert forall|v: Seq<u8>| #[trigger] is_pauli(v, n) implies turn(t, point(x, w))(v)
        == turned_point(t, x, w)(v) by {
        let u: Seq<u8> = word_product(t.axis, v);
        lemma_words(t.axis, v);
        lemma_words(t.axis, u);
        assert(u == w <==> v == moved);
        assert(words_anticommute(t.axis, u) <==> words_anticommute(t.axis, v));
        if words_anticommute(t.axis, v) {
            let k: int = 1 + word_phase(t.axis, u);
            assert(scale(t.cos, point(x, w)(v)) == point(t.cos * x, w)(v));
            if u == w {
                assert(times_i(from_real(x), k) == from_real(y));
            } else {
                assert(times_i(from_real(0real), k) == from_real(0real));
            }
            assert(scale(t.sin, times_i(point(x, w)(u), k)) == point(t.sin * y, moved)(v));
        }
    }
}

/// The word and the sign that a quarter turn, or one back, makes of a word.
pub open spec fn quarter_image(axis: Seq<u8>, back: bool, w: Seq<u8>) -> (Seq<u8>, bool) {
    if words_anticommute(axis, w) {
        (word_product(axis, w), turns_negative(axis, w) != back)
    } else {
        (w, false)
    }
}

/// A quarter turn, or one back.
pub open spec fn quarter_or_back(axis: Seq<u8>, back: bool) -> Turn {
    if back {
        turn_back(quarter(axis))
    } else {
        quarter(axis)
    }
}

proof fn lemma_quarter_point(axis: Seq<u8>, back: bool, x: real, w: Seq<u8>, n: nat)
    requires
        is_pauli(axis, n),
        is_pauli(w, n),
    ensures
        agree(
            n,
            turn(quarter_or_back(axis, back), point(x, w)),
            point(signed(quarter_image(axis, back, w).1, x), quarter_image(axis, back, w).0),
        ),
        is_pauli(quarter_image(axis, back, w).0, n),
{
    let t: Turn = quarter_or_back(axis, back);
    lemma_turn_point(t, x, w, n);
    lemma_words(axis, w);
    let y: real = signed(turns_negative(axis, w), x);
    lemma_mul(x, 0real, 0real);
    lemma_mul(0real, x, 0real);
    lemma_mul(y, 1real, 0real);
    lemma_mul(1real, y, 0real);
    assert(-0real == 0real);
}

/// Three quarter turns of a word.
proof fn lemma_three_quarters(
    axes: (Seq<u8>, Seq<u8>, Seq<u8>),
    backs: (bool, bool, bool),
    x: real,
    w: Seq<u8>,
    n: nat,
) -> (r: (Seq<u8>, bool))
    requires
        is_pauli(axes.0, n),
        is_pauli(axes.1, n),
        is_pauli(axes.2, n),
        is_pauli(w, n),
    ensures
        ({
            let (w1, s1) = quarter_image(axes.0, backs.0, w);
            let (w2, s2) = quarter_image(axes.1, backs.1, w1);
            let (w3, s3) = quarter_image(axes.2, backs.2, w2);
            r == (w3, (s1 != s2) != s3)
        }),
        agree(
            n,
            turn_all(
                seq![
                    quarter_or_back(axes.0, backs.0),
                    quarter_or_back(axes.1, backs.1),
                    quarter_or_back(axes.2, backs.2),
                ],
                point(x, w),
            ),
            point(signed(r.1, x), r.0),
        ),
{
    let t0: Turn = quarter_or_back(axes.0, backs.0);
    let t1: Turn = quarter_or_back(axes.1, backs.1);
    let t2: Turn = quarter_or_back(axes.2, backs.2);
    let (w1, s1): (Seq<u8>, bool) = quarter_image(axes.0, backs.0, w);
    let (w2, s2): (Seq<u8>, bool) = quarter_image(axes.1, backs.1, w1);
    let (w3, s3): (Seq<u8>, bool) = quarter_image(axes.2, backs.2, w2);
    let x1: real = signed(s1, x);
    let x2: real = signed(s2, x1);
    let f1: Element = turn(t0, point(x, w));
    let f2: Element = turn(t1, f1);
    lemma_quarter_point(axes.0, backs.0, x, w, n);
    lemma_quarter_point(axes.1, backs.1, x1, w1, n);
    lemma_quarter_point(axes.2, backs.2, x2, w2, n);
    lemma_turn_respects(t1, f1, point(x1, w1), n);
    lemma_turn_respects(t2, f2, point(x2, w2), n);
    let ts: Seq<Turn> = seq![t0, t1, t2];
    assert(ts.drop_first() =~= seq![t1, t2]);
    assert(ts.drop_first().drop_first() =~= seq![t2]);
    assert(ts.drop_first().drop_first().drop_first() =~= Seq::<Turn>::empty());
    reveal_with_fuel(turn_all, 4);
    (w3, (s1 != s2) != s3)
}

proof fn lemma_one_turn(t: Turn, f: Element)
    ensures
        turn_all(seq![t], f) == turn(t, f),
{
    assert(seq![t].drop_first() =~= Seq::<Turn>::empty());
    reveal_with_fuel(turn_all, 2);
}

proof fn lemma_two_turns(t: Turn, u: Turn, f: Element)
    ensures
        turn_all(seq![t, u], f) == turn(u, turn(t, f)),
{
    assert(seq![t, u].drop_first() =~= seq![u]);
    assert(seq![t, u].drop_first().drop_first() =~= Seq::<Turn>::empty());
    reveal_with_fuel(turn_all, 3);
}

// ---------------------------------------------------------------------
// Branches
// ---------------------------------------------------------------------

/// The element that is zero.
pub open spec fn nothing() -> Element {
    |v: Seq<u8>| from_real(0real)
}

/// What branches make of `x` times a word, with the sine `s` and the cosine `c` of the
/// angle.
pub open spec fn branch_points(bs: Seq<Branch>, x: real, s: real, c: real) -> Element
    decreases bs.len(),
{
    if bs.len() == 0 {
        nothing()
    } else {
        sum(
            branch_points(bs.drop_last(), x, s, c),
            point(branch_weight(bs.last(), s, c) * x, bs.last().word),
        )
    }
}

proof fn lemma_one_branch(b: Branch, x: real, s: real, c: real, n: nat)
    ensures
        agree(n, branch_points(seq![b], x, s, c), point(branch_weight(b, s, c) * x, b.word)),
{
    assert(seq![b].drop_last() =~= Seq::<Branch>::empty());
    reveal_with_fuel(branch_points, 2);
}

proof fn lemma_two_branches(b: Branch, d: Branch, x: real, s: real, c: real, n: nat)
    ensures
        agree(
            n,
            branch_points(seq![b, d], x, s, c),
            sum(
                point(branch_weight(b, s, c) * x, b.word),
                point(branch_weight(d, s, c) * x, d.word),
            ),
        ),
{
    assert(seq![b, d].drop_last() =~= seq![b]);
    lemma_one_branch(b, x, s, c, n);
}

proof fn lemma_weight(b: Branch, s: real, c: real)
    requires
        b.n_sin <= 2,
        b.n_cos <= 2,
    ensures
        branch_weight(b, s, c) == factor_value(b.factor) * (power(s, b.n_sin) * power(c, b.n_cos)),
        b.n_sin == 0 ==> branch_weight(b, s, c) == factor_value(b.factor) * power(c, b.n_cos),
        b.n_cos == 0 ==> branch_weight(b, s, c) == factor_value(b.factor) * power(s, b.n_sin),
        b.n_sin == 0 && b.n_cos == 0 ==> branch_weight(b, s, c) == factor_value(b.factor),
        power(s, 1) == s,
        power(c, 1) == c,
        power(s, 2) == s * s,
        power(c, 2) == c * c,
{
    lemma_powers(s);
    lemma_powers(c);
    lemma_mul(power(s, b.n_sin), 1real, 0real);
    lemma_mul(1real, power(c, b.n_cos), 0real);
    lemma_mul(power(c, b.n_cos), 1real, 0real);
    lemma_mul(factor_value(b.factor), 1real, 0real);
}

/// One branch with a sign.
proof fn lemma_signed_branch(w: Seq<u8>, sign: i8, x: real, s: real, c: real, n: nat)
    requires
        sign == 1 || sign == -1,
    ensures
        agree(
            n,
            branch_points(
                seq![Branch { word: w, factor: sign_factor(sign), n_sin: 0, n_cos: 0 }],
                x,
                s,
                c,
            ),
            point(signed(sign != 1, x), w),
        ),
{
    let b: Branch = Branch { word: w, factor: sign_factor(sign), n_sin: 0, n_cos: 0 };
    lemma_one_branch(b, x, s, c, n);
    lemma_weight(b, s, c);
    lemma_mul(x, 1real, 0real);
    lemma_mul(1real, x, 0real);
}

// ---------------------------------------------------------------------
// One gate on one word
// ---------------------------------------------------------------------

/// A quarter turn about one qubit.
proof fn lemma_single_quarter(w: Seq<u8>, q: u32, axis: u8, back: bool)
    requires
        is_word(w),
        q < w.len(),
        is_axis(axis),
    ensures
        ({
            let l = w[q as int];
            let (v, negative) = quarter_image(single(w.len(), q, axis), back, w);
            &&& is_pauli(single(w.len(), q, axis), w.len())
            &&& is_pauli(v, w.len())
            &&& rules::turned(axis, l) matches Some((m, sign)) ==> v == put(w, q, m) && negative == ((
            sign != 1) != back) && (sign == 1 || sign == -1)
            &&& rules::turned(axis, l) is None ==> v == w && !negative
        }),
{
    lemma_single(w, q, axis);
    lemma_words(single(w.len(), q, axis), w);
    assert(w[q as int] < 4);
}

proof fn lemma_clifford_turns(
    w: Seq<u8>,
    q: u32,
    axis: u8,
    x: real,
    s: real,
    c: real,
)
    requires
        is_word(w),
        q < w.len(),
        is_axis(axis),
    ensures
        agree(
            w.len(),
            turn_all(seq![quarter(single(w.len(), q, axis))], point(x, w)),
            branch_points(
                clifford_branches(w, q, rules::turned(axis, w[q as int])),
                x,
                s,
                c,
            ),
        ),
{
    let n: nat = w.len();
    lemma_single_quarter(w, q, axis, false);
    lemma_one_turn(quarter(single(n, q, axis)), point(x, w));
    lemma_quarter_point(single(n, q, axis), false, x, w, n);
    match rules::turned(axis, w[q as int]) {
        Some((m, sign)) => lemma_signed_branch(put(w, q, m), sign, x, s, c, n),
        None => lemma_signed_branch(w, 1, x, s, c, n),
    }
}

proof fn lemma_hadamard_turns(w: Seq<u8>, q: u32, x: real, s: real, c: real)
    requires
        is_word(w),
        q < w.len(),
    ensures
        agree(
            w.len(),
            turn_all(
                seq![
                    quarter(single(w.len(), q, rules::AXIS_Z)),
                    quarter(single(w.len(), q, rules::AXIS_X)),
                    quarter(single(w.len(), q, rules::AXIS_Z)),
                ],
                point(x, w),
            ),
            branch_points(clifford_branches(w, q, rules::hadamard(w[q as int])), x, s, c),
        ),
{
    let n: nat = w.len();
    let az: Seq<u8> = single(n, q, rules::AXIS_Z);
    let ax: Seq<u8> = single(n, q, rules::AXIS_X);
    let w1: Seq<u8> = quarter_image(az, false, w).0;
    let w2: Seq<u8> = quarter_image(ax, false, w1).0;
    lemma_single_quarter(w, q, rules::AXIS_Z, false);
    lemma_single_quarter(w1, q, rules::AXIS_X, false);
    lemma_single_quarter(w2, q, rules::AXIS_Z, false);
    let r: (Seq<u8>, bool) = lemma_three_quarters((az, ax, az), (false, false, false), x, w, n);
    assert(w[q as int] < 4);
    match rules::hadamard(w[q as int]) {
        Some((m, sign)) => {
            assert(r.0 =~= put(w, q, m));
            assert(r.1 == (sign != 1));
            lemma_signed_branch(put(w, q, m), sign, x, s, c, n);
        },
        None => {
            assert(r.0 =~= w);
            lemma_signed_branch(w, 1, x, s, c, n);
        },
    }
}

/// A turn about one qubit, by any angle.
proof fn lemma_rotation_turns(w: Seq<u8>, q: u32, axis: u8, t: Turn, x: real)
    requires
        is_word(w),
        q < w.len(),
        is_axis(axis),
        t.axis == single(w.len(), q, axis),
    ensures
        agree(
            w.len(),
            turn_all(seq![t], point(x, w)),
            branch_points(
                rotation_branches(w, q, rules::turned(axis, w[q as int])),
                x,
                t.sin,
                t.cos,
            ),
        ),
{
    let n: nat = w.len();
    let (s, c): (real, real) = (t.sin, t.cos);
    lemma_single(w, q, axis);
    assert(w[q as int] < 4);
    lemma_one_turn(t, point(x, w));
    lemma_turn_point(t, x, w, n);
    match rules::turned(axis, w[q as int]) {
        Some((m, sign)) => {
            let b: Branch = Branch { word: w, factor: Factor::One, n_sin: 0, n_cos: 1 };
            let d: Branch = Branch {
                word: put(w, q, m),
                factor: Factor::Sign(sign),
                n_sin: 1,
                n_cos: 0,
            };
            lemma_two_branches(b, d, x, s, c, n);
            lemma_weight(b, s, c);
            lemma_weight(d, s, c);
            lemma_mul(c, 1real, 0real);
            lemma_mul(1real, c, 0real);
            lemma_mul(s, 1real, 0real);
            lemma_mul(1real, s, 0real);
            assert(s * (-x) == (-1real * s) * x) by (nonlinear_arith);
            assert(word_product(t.axis, w) == put(w, q, m));
            assert(turns_negative(t.axis, w) == (sign != 1));
        },
        None => lemma_signed_branch(w, 1, x, s, c, n),
    }
}

proof fn lemma_eighth_turns(w: Seq<u8>, q: u32, x: real, s: real, c: real)
    requires
        is_word(w),
        q < w.len(),
    ensures
        agree(
            w.len(),
            turn_all(seq![eighth(single(w.len(), q, rules::AXIS_Z))], point(x, w)),
            branch_points(t_branches(w, q, rules::eighth_turned(w[q as int])), x, s, c),
        ),
{
    let n: nat = w.len();
    let h: real = real::spec_inv_sqrt2();
    let t: Turn = eighth(single(n, q, rules::AXIS_Z));
    lemma_single(w, q, rules::AXIS_Z);
    assert(w[q as int] < 4);
    lemma_one_turn(t, point(x, w));
    lemma_turn_point(t, x, w, n);
    match rules::eighth_turned(w[q as int]) {
        Some(((l, neg), (m, negative))) => {
            let b: Branch = Branch {
                word: put(w, q, l),
                factor: Factor::Phase(neg),
                n_sin: 0,
                n_cos: 0,
            };
            let d: Branch = Branch {
                word: put(w, q, m),
                factor: Factor::Phase(negative),
                n_sin: 0,
                n_cos: 0,
            };
            lemma_two_branches(b, d, x, s, c, n);
            lemma_weight(b, s, c);
            lemma_weight(d, s, c);
            assert(h * (-x) == (-h) * x) by (nonlinear_arith);
            assert(put(w, q, l) =~= w);
            assert(word_product(t.axis, w) == put(w, q, m));
        },
        None => lemma_signed_branch(w, 1, x, s, c, n),
    }
}

/// A word with the labels of a pair on two qubits.
pub open spec fn with_pair(w: Seq<u8>, q: u32, r: u32, pair: (u8, u8)) -> Seq<u8> {
    w.update(q as int, pair.0).update(r as int, pair.1)
}

/// The pair and the sign that a quarter turn about a pair, or one back, makes of a pair.
pub open spec fn pair_quarter(axis: (u8, u8), back: bool, pair: (u8, u8)) -> ((u8, u8), bool) {
    if pairs_anticommute(axis, pair) {
        (pair_product(axis, pair), (pair_turn_sign(axis, pair) != 1) != back)
    } else {
        (pair, false)
    }
}

/// The word with the labels of a pair on two qubits, and the identity elsewhere.
pub open spec fn pair_axis(n: nat, q: u32, r: u32, axis: (u8, u8)) -> Seq<u8> {
    double(n, q, axis.0, r, axis.1)
}

/// A quarter turn about a pair.
proof fn lemma_pair_quarter(w: Seq<u8>, q: u32, r: u32, axis: (u8, u8), back: bool)
    requires
        is_word(w),
        q < w.len(),
        r < w.len(),
        q != r,
        axis.0 < 4,
        axis.1 < 4,
    ensures
        ({
            let pair = (w[q as int], w[r as int]);
            let (next, negative) = pair_quarter(axis, back, pair);
            &&& is_pauli(pair_axis(w.len(), q, r, axis), w.len())
            &&& is_pauli(with_pair(w, q, r, next), w.len())
            &&& next.0 < 4
            &&& next.1 < 4
            &&& quarter_image(pair_axis(w.len(), q, r, axis), back, w) == (
                with_pair(w, q, r, next),
                negative,
            )
        }),
{
    let pair: (u8, u8) = (w[q as int], w[r as int]);
    lemma_double(w, q, axis.0, r, axis.1);
    assert(pair.0 < 4 && pair.1 < 4);
    assert(with_pair(w, q, r, pair) =~= w);
    let (next, negative): ((u8, u8), bool) = pair_quarter(axis, back, pair);
    assert(next.0 < 4 && next.1 < 4);
    assert forall|i: int| 0 <= i < w.len() implies with_pair(w, q, r, next)[i] < 4 by {
        assert(w[i] < 4);
    }
    assert(words_anticommute(pair_axis(w.len(), q, r, axis), w) <==> pairs_anticommute(axis, pair));
}

/// An axis on one qubit is a pair with the identity.
proof fn lemma_single_as_pair(n: nat, q: u32, r: u32, l: u8)
    requires
        q < n,
        r < n,
        q != r,
    ensures
        single(n, q, l) == pair_axis(n, q, r, (l, 0)),
        single(n, r, l) == pair_axis(n, q, r, (0, l)),
{
    assert(single(n, q, l) =~= pair_axis(n, q, r, (l, 0)));
    assert(single(n, r, l) =~= pair_axis(n, q, r, (0, l)));
}

/// The pair that three quarter turns make of a pair, and its sign.
pub open spec fn three_quarters(
    axes: ((u8, u8), (u8, u8), (u8, u8)),
    backs: (bool, bool, bool),
    pair: (u8, u8),
) -> ((u8, u8), bool) {
    let (p1, s1) = pair_quarter(axes.0, backs.0, pair);
    let (p2, s2) = pair_quarter(axes.1, backs.1, p1);
    let (p3, s3) = pair_quarter(axes.2, backs.2, p2);
    (p3, (s1 != s2) != s3)
}

/// Three quarter turns about pairs.
proof fn lemma_three_pair_quarters(
    w: Seq<u8>,
    q: u32,
    r: u32,
    axes: ((u8, u8), (u8, u8), (u8, u8)),
    backs: (bool, bool, bool),
    x: real,
)
    requires
        is_word(w),
        q < w.len(),
        r < w.len(),
        q != r,
        axes.0.0 < 4,
        axes.0.1 < 4,
        axes.1.0 < 4,
        axes.1.1 < 4,
        axes.2.0 < 4,
        axes.2.1 < 4,
    ensures
        ({
            let (next, negative) = three_quarters(axes, backs, (w[q as int], w[r as int]));
            agree(
                w.len(),
                turn_all(
                    seq![
                        quarter_or_back(pair_axis(w.len(), q, r, axes.0), backs.0),
                        quarter_or_back(pair_axis(w.len(), q, r, axes.1), backs.1),
                        quarter_or_back(pair_axis(w.len(), q, r, axes.2), backs.2),
                    ],
                    point(x, w),
                ),
                point(signed(negative, x), with_pair(w, q, r, next)),
            )
        }),
{
    let n: nat = w.len();
    let pair: (u8, u8) = (w[q as int], w[r as int]);
    let (p1, s1): ((u8, u8), bool) = pair_quarter(axes.0, backs.0, pair);
    let (p2, s2): ((u8, u8), bool) = pair_quarter(axes.1, backs.1, p1);
    let (p3, s3): ((u8, u8), bool) = pair_quarter(axes.2, backs.2, p2);
    let w1: Seq<u8> = with_pair(w, q, r, p1);
    let w2: Seq<u8> = with_pair(w1, q, r, p2);
    let w3: Seq<u8> = with_pair(w2, q, r, p3);
    lemma_pair_quarter(w, q, r, axes.0, backs.0);
    lemma_pair_quarter(w1, q, r, axes.1, backs.1);
    lemma_pair_quarter(w2, q, r, axes.2, backs.2);
    assert(w3 =~= with_pair(w, q, r, p3));
    let found: (Seq<u8>, bool) = lemma_three_quarters(
        (
            pair_axis(n, q, r, axes.0),
            pair_axis(n, q, r, axes.1),
            pair_axis(n, q, r, axes.2),
        ),
        backs,
        x,
        w,
        n,
    );
}

/// Three quarter turns are a controlled Pauli gate.
#[verifier::rlimit(50)]
proof fn lemma_controlled_labels(axis: u8, c: u8, t: u8)
    requires
        is_axis(axis),
        c < 4,
        t < 4,
    ensures
        ({
            let (c1, t1, sign) = pair_image(c, t, rules::controlled(axis, c, t));
            three_quarters(
                ((rules::AXIS_Z, 0u8), (0u8, axis), (rules::AXIS_Z, axis)),
                (true, true, false),
                (c, t),
            ) == ((c1, t1), sign != 1) && (sign == 1 || sign == -1) && c1 < 4 && t1 < 4
        }),
{
}

/// Three quarter turns exchange the labels of a pair.
#[verifier::rlimit(50)]
proof fn lemma_swap_labels(a: u8, b: u8)
    requires
        a < 4,
        b < 4,
    ensures
        three_quarters(
            (
                (rules::AXIS_X, rules::AXIS_X),
                (rules::AXIS_Y, rules::AXIS_Y),
                (rules::AXIS_Z, rules::AXIS_Z),
            ),
            (false, false, false),
            (a, b),
        ) == ((b, a), false),
{
}

proof fn lemma_controlled_turns(w: Seq<u8>, q: u32, r: u32, axis: u8, x: real, s: real, c: real)
    requires
        is_word(w),
        q < w.len(),
        r < w.len(),
        q != r,
        is_axis(axis),
    ensures
        agree(
            w.len(),
            turn_all(controlled_turns(w.len(), q, r, axis), point(x, w)),
            branch_points(
                controlled_branches(w, q, r, rules::controlled_code(axis, pair_code(w, q, r))),
                x,
                s,
                c,
            ),
        ),
{
    let n: nat = w.len();
    let (a, b): (u8, u8) = (w[q as int], w[r as int]);
    assert(a < 4 && b < 4);
    let code: u8 = pair_code(w, q, r);
    assert(code / 4 == a && code % 4 == b && code < 16);
    lemma_single_as_pair(n, q, r, rules::AXIS_Z);
    lemma_single_as_pair(n, q, r, axis);
    lemma_three_pair_quarters(
        w,
        q,
        r,
        ((rules::AXIS_Z, 0u8), (0u8, axis), (rules::AXIS_Z, axis)),
        (true, true, false),
        x,
    );
    lemma_controlled_labels(axis, a, b);
    let (a1, b1, sign): (u8, u8, i8) = pair_image(a, b, rules::controlled(axis, a, b));
    let v: Seq<u8> = with_pair(w, q, r, (a1, b1));
    assert(v =~= put(put(w, q, a1), r, b1));
    lemma_signed_branch(v, sign, x, s, c, n);
    if rules::controlled(axis, a, b) is None {
        assert(v =~= w);
    }
    let bs: Seq<Branch> = controlled_branches(w, q, r, rules::controlled_code(axis, code));
    assert(bs =~= seq![Branch { word: v, factor: sign_factor(sign), n_sin: 0, n_cos: 0 }]);
}

proof fn lemma_swap_turns(w: Seq<u8>, q: u32, r: u32, x: real, s: real, c: real)
    requires
        is_word(w),
        q < w.len(),
        r < w.len(),
        q != r,
    ensures
        agree(
            w.len(),
            turn_all(
                seq![
                    quarter(double(w.len(), q, rules::AXIS_X, r, rules::AXIS_X)),
                    quarter(double(w.len(), q, rules::AXIS_Y, r, rules::AXIS_Y)),
                    quarter(double(w.len(), q, rules::AXIS_Z, r, rules::AXIS_Z)),
                ],
                point(x, w),
            ),
            branch_points(swap_branches(w, q, r), x, s, c),
        ),
{
    let (a, b): (u8, u8) = (w[q as int], w[r as int]);
    assert(a < 4 && b < 4);
    lemma_three_pair_quarters(
        w,
        q,
        r,
        (
            (rules::AXIS_X, rules::AXIS_X),
            (rules::AXIS_Y, rules::AXIS_Y),
            (rules::AXIS_Z, rules::AXIS_Z),
        ),
        (false, false, false),
        x,
    );
    lemma_swap_labels(a, b);
    lemma_signed_branch(with_pair(w, q, r, (b, a)), 1, x, s, c, w.len());
}

/// What a turn about a pair makes of a word.
pub open spec fn pair_turned(
    t: Turn,
    axis: (u8, u8),
    x: real,
    w: Seq<u8>,
    q: u32,
    r: u32,
) -> Element {
    let pair = (w[q as int], w[r as int]);
    if pairs_anticommute(axis, pair) {
        sum(
            point(t.cos * x, w),
            point(
                t.sin * signed(pair_turn_sign(axis, pair) != 1, x),
                with_pair(w, q, r, pair_product(axis, pair)),
            ),
        )
    } else {
        point(x, w)
    }
}

/// A turn about a pair, by any angle.
proof fn lemma_pair_turn(t: Turn, axis: (u8, u8), x: real, w: Seq<u8>, q: u32, r: u32)
    requires
        is_word(w),
        q < w.len(),
        r < w.len(),
        q != r,
        axis.0 < 4,
        axis.1 < 4,
        t.axis == pair_axis(w.len(), q, r, axis),
    ensures
        is_pauli(t.axis, w.len()),
        agree(w.len(), turn(t, point(x, w)), pair_turned(t, axis, x, w, q, r)),
{
    let pair: (u8, u8) = (w[q as int], w[r as int]);
    lemma_double(w, q, axis.0, r, axis.1);
    assert(pair.0 < 4 && pair.1 < 4);
    lemma_turn_point(t, x, w, w.len());
    assert(words_anticommute(t.axis, w) <==> pairs_anticommute(axis, pair));
}

/// The weight of one branch of a controlled rotation.
proof fn lemma_rotation_weight(b: Branch, sign: i8, x: real, s: real, c: real)
    requires
        b.factor == Factor::Sign(sign),
        sign == 1 || sign == -1,
        b.n_sin <= 2,
        b.n_cos <= 2,
    ensures
        branch_weight(b, s, c) * x == signed(
            sign != 1,
            (power(s, b.n_sin) * power(c, b.n_cos)) * x,
        ),
{
    let m: real = power(s, b.n_sin) * power(c, b.n_cos);
    lemma_mul(1real, m, 0real);
    lemma_mul(m, 1real, 0real);
    assert((-1real * m) * x == -(m * x)) by (nonlinear_arith);
}

proof fn lemma_four_branches(bs: Seq<Branch>, x: real, s: real, c: real, n: nat)
    requires
        bs.len() == 4,
    ensures
        agree(
            n,
            branch_points(bs, x, s, c),
            sum(
                sum(
                    point(branch_weight(bs[0], s, c) * x, bs[0].word),
                    point(branch_weight(bs[1], s, c) * x, bs[1].word),
                ),
                sum(
                    point(branch_weight(bs[2], s, c) * x, bs[2].word),
                    point(branch_weight(bs[3], s, c) * x, bs[3].word),
                ),
            ),
        ),
{
    let three: Seq<Branch> = bs.drop_last();
    assert(three.drop_last() =~= seq![bs[0], bs[1]]);
    lemma_two_branches(bs[0], bs[1], x, s, c, n);
    assert(three.last() == bs[2]);
    assert(bs.last() == bs[3]);
    reveal_with_fuel(branch_points, 3);
}

/// A controlled rotation of a word that one of its turns changes.
proof fn lemma_one_of_two_turns(
    w: Seq<u8>,
    q: u32,
    r: u32,
    axis: u8,
    t: Turn,
    u: Turn,
    x: real,
)
    requires
        is_word(w),
        q < w.len(),
        r < w.len(),
        q != r,
        is_axis(axis),
        t.axis == pair_axis(w.len(), q, r, (0u8, axis)),
        u.axis == pair_axis(w.len(), q, r, (rules::AXIS_Z, axis)),
        u.cos == t.cos,
        u.sin == -t.sin,
        !(pairs_anticommute((0u8, axis), (w[q as int], w[r as int])) && pairs_anticommute(
            (rules::AXIS_Z, axis),
            (w[q as int], w[r as int]),
        )),
    ensures
        agree(
            w.len(),
            turn_all(seq![t, u], point(x, w)),
            branch_points(
                controlled_rotation_branches(w, q, r, two_turns(axis, (w[q as int], w[r as int]))),
                x,
                t.sin,
                t.cos,
            ),
        ),
{
    let n: nat = w.len();
    let (s, c): (real, real) = (t.sin, t.cos);
    let pair: (u8, u8) = (w[q as int], w[r as int]);
    let (a, b): ((u8, u8), (u8, u8)) = ((0u8, axis), (rules::AXIS_Z, axis));
    assert(pair.0 < 4 && pair.1 < 4);
    assert(with_pair(w, q, r, pair) =~= w);
    lemma_two_turns(t, u, point(x, w));
    lemma_pair_turn(t, a, x, w, q, r);
    lemma_pair_turn(u, b, x, w, q, r);
    lemma_turn_respects(u, turn(t, point(x, w)), pair_turned(t, a, x, w, q, r), n);
    let bs: Seq<Branch> = controlled_rotation_branches(w, q, r, two_turns(axis, pair));
    if two_turns(axis, pair) is None {
        lemma_signed_branch(w, 1, x, s, c, n);
    } else {
        let b0: Branch = bs[0];
        let b1: Branch = bs[1];
        assert(bs =~= seq![b0, b1]);
        lemma_two_branches(b0, b1, x, s, c, n);
        lemma_powers(s);
        lemma_powers(c);
        lemma_rotation_weight(b0, 1, x, s, c);
        lemma_mul(1real, c, 0real);
        lemma_mul(c, 1real, 0real);
        lemma_mul(s, 1real, 0real);
        assert(put(put(w, q, pair.0), r, pair.1) =~= w);
        if pairs_anticommute(a, pair) {
            let sign: i8 = pair_turn_sign(a, pair);
            let moved: (u8, u8) = pair_product(a, pair);
            let there: Seq<u8> = with_pair(w, q, r, moved);
            lemma_rotation_weight(b1, sign, x, s, c);
            assert(moved.0 < 4 && moved.1 < 4);
            assert(put(put(w, q, moved.0), r, moved.1) =~= there);
            let y: real = s * signed(sign != 1, x);
            assert(s * (-x) == -(s * x)) by (nonlinear_arith);
            assert forall|i: int| 0 <= i < n implies there[i] < 4 by {
                assert(w[i] < 4);
            }
            lemma_turn_adds(u, point(c * x, w), point(y, there), n);
            lemma_pair_turn(u, b, c * x, w, q, r);
            lemma_pair_turn(u, b, y, there, q, r);
            assert(!pairs_anticommute(b, moved));
        } else {
            let sign: i8 = pair_turn_sign(b, pair);
            let moved: (u8, u8) = pair_product(b, pair);
            lemma_rotation_weight(b1, (-sign) as i8, x, s, c);
            assert(moved.0 < 4 && moved.1 < 4);
            assert(put(put(w, q, moved.0), r, moved.1) =~= with_pair(w, q, r, moved));
            assert((-s) * (-x) == s * x && (-s) * x == -(s * x)) by (nonlinear_arith);
        }
    }
}

/// A controlled rotation of a word that both of its turns change.
#[verifier::rlimit(50)]
proof fn lemma_both_of_two_turns(
    w: Seq<u8>,
    q: u32,
    r: u32,
    axis: u8,
    t: Turn,
    u: Turn,
    x: real,
)
    requires
        is_word(w),
        q < w.len(),
        r < w.len(),
        q != r,
        is_axis(axis),
        t.axis == pair_axis(w.len(), q, r, (0u8, axis)),
        u.axis == pair_axis(w.len(), q, r, (rules::AXIS_Z, axis)),
        u.cos == t.cos,
        u.sin == -t.sin,
        pairs_anticommute((0u8, axis), (w[q as int], w[r as int])),
        pairs_anticommute((rules::AXIS_Z, axis), (w[q as int], w[r as int])),
    ensures
        agree(
            w.len(),
            turn_all(seq![t, u], point(x, w)),
            branch_points(
                controlled_rotation_branches(w, q, r, two_turns(axis, (w[q as int], w[r as int]))),
                x,
                t.sin,
                t.cos,
            ),
        ),
{
    let n: nat = w.len();
    let (s, c): (real, real) = (t.sin, t.cos);
    let pair: (u8, u8) = (w[q as int], w[r as int]);
    let (a, b): ((u8, u8), (u8, u8)) = ((0u8, axis), (rules::AXIS_Z, axis));
    assert(pair.0 < 4 && pair.1 < 4);
    let by_a: (u8, u8) = pair_product(a, pair);
    let by_b: (u8, u8) = pair_product(b, pair);
    let by_both: (u8, u8) = pair_product(b, by_a);
    let (sign_a, sign_b, after): (i8, i8, i8) = (
        pair_turn_sign(a, pair),
        pair_turn_sign(b, pair),
        pair_turn_sign(b, by_a),
    );
    assert(by_a.0 < 4 && by_a.1 < 4 && by_b.0 < 4 && by_b.1 < 4 && by_both.0 < 4 && by_both.1 < 4);
    assert(pairs_anticommute(b, by_a));
    let wa: Seq<u8> = with_pair(w, q, r, by_a);
    let wb: Seq<u8> = with_pair(w, q, r, by_b);
    let wab: Seq<u8> = with_pair(w, q, r, by_both);
    assert forall|i: int| 0 <= i < n implies wa[i] < 4 by {
        assert(w[i] < 4);
    }
    assert(with_pair(wa, q, r, by_both) =~= wab);
    let y: real = s * signed(sign_a != 1, x);
    // the turns
    lemma_two_turns(t, u, point(x, w));
    lemma_pair_turn(t, a, x, w, q, r);
    lemma_pair_turn(u, b, c * x, w, q, r);
    lemma_pair_turn(u, b, y, wa, q, r);
    lemma_turn_respects(u, turn(t, point(x, w)), sum(point(c * x, w), point(y, wa)), n);
    lemma_turn_adds(u, point(c * x, w), point(y, wa), n);
    // the branches
    let bs: Seq<Branch> = controlled_rotation_branches(w, q, r, two_turns(axis, pair));
    lemma_four_branches(bs, x, s, c, n);
    lemma_powers(s);
    lemma_powers(c);
    lemma_rotation_weight(bs[0], 1, x, s, c);
    lemma_rotation_weight(bs[1], sign_a, x, s, c);
    assert(sign_a * after == if sign_a == after {
        1
    } else {
        -1int
    }) by (nonlinear_arith)
        requires
            sign_a == 1 || sign_a == -1,
            after == 1 || after == -1,
    ;
    lemma_rotation_weight(bs[2], (-(sign_a * after)) as i8, x, s, c);
    lemma_rotation_weight(bs[3], (-sign_b) as i8, x, s, c);
    assert(put(put(w, q, pair.0), r, pair.1) =~= w);
    assert(put(put(w, q, by_a.0), r, by_a.1) =~= wa);
    assert(put(put(w, q, by_b.0), r, by_b.1) =~= wb);
    assert(put(put(w, q, by_both.0), r, by_both.1) =~= wab);
    // the numbers
    lemma_mul(1real, c * c, 0real);
    lemma_mul(c * c, 1real, 0real);
    lemma_mul(s * s, 1real, 0real);
    lemma_mul(c, c, x);
    assert(s * (-x) == -(s * x)) by (nonlinear_arith);
    assert(c * (s * x) == (s * c) * x && c * (-(s * x)) == -((s * c) * x)) by (nonlinear_arith);
    assert((-s) * (s * x) == -((s * s) * x) && (-s) * (-(s * x)) == (s * s) * x) by (nonlinear_arith);
    assert((-s) * (c * x) == -((s * c) * x) && (-s) * (-(c * x)) == (s * c) * x) by (nonlinear_arith);
    assert(branch_weight(bs[0], s, c) * x == c * (c * x));
    assert(branch_weight(bs[1], s, c) * x == c * y);
    assert(branch_weight(bs[2], s, c) * x == (-s) * signed(after != 1, y));
    assert(branch_weight(bs[3], s, c) * x == (-s) * signed(sign_b != 1, c * x));
}

proof fn lemma_controlled_rotation_turns(
    w: Seq<u8>,
    q: u32,
    r: u32,
    axis: u8,
    angles: Angles,
    p: u32,
    x: real,
)
    requires
        is_word(w),
        q < w.len(),
        r < w.len(),
        q != r,
        is_axis(axis),
    ensures
        agree(
            w.len(),
            turn_all(controlled_rotation_turns(w.len(), q, r, axis, angles, p), point(x, w)),
            branch_points(
                controlled_rotation_branches(
                    w,
                    q,
                    r,
                    rules::controlled_turned_code(axis, pair_code(w, q, r)),
                ),
                x,
                angles.sins[p as int],
                angles.coss[p as int],
            ),
        ),
{
    let n: nat = w.len();
    let (a, b): (u8, u8) = (w[q as int], w[r as int]);
    assert(a < 4 && b < 4);
    let code: u8 = pair_code(w, q, r);
    assert(code / 4 == a && code % 4 == b && code < 16);
    lemma_controlled_rotation_is_two_turns(axis, a, b);
    lemma_single_as_pair(n, q, r, axis);
    let t: Turn = turn_by(single(n, r, axis), angles, p);
    let u: Turn = turn_back(turn_by(double(n, q, rules::AXIS_Z, r, axis), angles, p));
    if pairs_anticommute((0u8, axis), (a, b)) && pairs_anticommute((rules::AXIS_Z, axis), (a, b)) {
        lemma_both_of_two_turns(w, q, r, axis, t, u, x);
    } else {
        lemma_one_of_two_turns(w, q, r, axis, t, u, x);
    }
}

/// What a gate makes of a word is what its turns make of it.
pub proof fn lemma_gate_turns_a_word(g: Gate, w: Seq<u8>, angles: Angles, x: real)
    requires
        is_word(w),
        is_proper(g, w.len() as int),
        has_own_wires(g),
    ensures
        agree(
            w.len(),
            turn_all(gate_turns(g, w.len(), angles), point(x, w)),
            branch_points(
                branches(g, w),
                x,
                angles.sins[param_index(g) as int],
                angles.coss[param_index(g) as int],
            ),
        ),
{
    let (q, r, p): (u32, u32, u32) = (g.wire0, second_wire(g), param_index(g));
    let (s, c): (real, real) = (angles.sins[p as int], angles.coss[p as int]);
    let n: nat = w.len();
    let (ax, ay, az): (u8, u8, u8) = (rules::AXIS_X, rules::AXIS_Y, rules::AXIS_Z);
    match g.kind {
        rules::RX => lemma_rotation_turns(w, q, ax, turn_by(single(n, q, ax), angles, p), x),
        rules::RY => lemma_rotation_turns(w, q, ay, turn_by(single(n, q, ay), angles, p), x),
        rules::RZ => lemma_rotation_turns(w, q, az, turn_by(single(n, q, az), angles, p), x),
        rules::H => lemma_hadamard_turns(w, q, x, s, c),
        rules::S => lemma_clifford_turns(w, q, az, x, s, c),
        rules::SX => lemma_clifford_turns(w, q, ax, x, s, c),
        rules::T => lemma_eighth_turns(w, q, x, s, c),
        rules::SWAP => lemma_swap_turns(w, q, r, x, s, c),
        rules::CNOT => lemma_controlled_turns(w, q, r, ax, x, s, c),
        rules::CY => lemma_controlled_turns(w, q, r, ay, x, s, c),
        rules::CZ => lemma_controlled_turns(w, q, r, az, x, s, c),
        rules::CRX => lemma_controlled_rotation_turns(w, q, r, ax, angles, p, x),
        rules::CRY => lemma_controlled_rotation_turns(w, q, r, ay, angles, p, x),
        _ => lemma_controlled_rotation_turns(w, q, r, az, angles, p, x),
    }
}

proof fn lemma_quarter_is_turn(axis: Seq<u8>, n: nat)
    requires
        is_pauli(axis, n),
    ensures
        is_turn(quarter(axis), n),
        is_turn(turn_back(quarter(axis)), n),
{
    assert(1real * 1real == 1real && (-1real) * (-1real) == 1real && 1real * (-1real) == -1real)
        by (nonlinear_arith);
    assert(0real * 2real == 0real && 1real * 2real == 2real && (-1real) * 2real == -2real)
        by (nonlinear_arith);
}

proof fn lemma_turn_by_is_turn(axis: Seq<u8>, angles: Angles, p: u32, n: nat)
    requires
        is_pauli(axis, n),
        is_angle(angles, p as int),
    ensures
        is_turn(turn_by(axis, angles, p), n),
        is_turn(turn_back(turn_by(axis, angles, p)), n),
{
    let t: Turn = turn_by(axis, angles, p);
    let (a, b): (real, real) = (t.half_cos, t.half_sin);
    lemma_mul(t.cos, 1real, 0real);
    lemma_mul(t.sin, 1real, 0real);
    lemma_mul(-t.sin, 1real, 0real);
    assert((-b) * (-b) == b * b && a * (-b) == -(a * b)) by (nonlinear_arith);
}

proof fn lemma_eighth_is_turn(axis: Seq<u8>, n: nat)
    requires
        is_pauli(axis, n),
        is_inv_sqrt2(real::spec_inv_sqrt2()),
    ensures
        is_turn(eighth(axis), n),
{
    let h: real = real::spec_inv_sqrt2();
    let a: real = 1real + h;
    let m: real = h * h;
    assert(a * a == 1real + 2real * h + h * h && a * h == h + h * h) by (nonlinear_arith)
        requires
            a == 1real + h,
    ;
    assert(h * (1real + 2real * h + 2real * (h * h)) == 1real + 2real * h) by (nonlinear_arith)
        requires
            2real * (h * h) == 1real,
    ;
}

/// The turns of a gate are turns.
pub proof fn lemma_gate_turns_are_turns(g: Gate, n: nat, angles: Angles)
    requires
        is_proper(g, n as int),
        has_own_wires(g),
        turns_by_angle(g.kind) ==> is_angle(angles, param_index(g) as int),
        g.kind == rules::T ==> is_inv_sqrt2(real::spec_inv_sqrt2()),
    ensures
        all_turns(gate_turns(g, n, angles), n),
{
    let (q, r, p): (u32, u32, u32) = (g.wire0, second_wire(g), param_index(g));
    let (ax, ay, az): (u8, u8, u8) = (rules::AXIS_X, rules::AXIS_Y, rules::AXIS_Z);
    let one: Seq<u8> = identity_word(n);
    let ts: Seq<Turn> = gate_turns(g, n, angles);
    assert forall|l: u8| l < 4 implies is_pauli(#[trigger] single(n, q, l), n) by {
        lemma_single(one, q, l);
    }
    if is_two_qubit(g.kind) {
        assert forall|l: u8| l < 4 implies is_pauli(#[trigger] single(n, r, l), n) by {
            lemma_single(one, r, l);
        }
        assert forall|l: u8, m: u8| l < 4 && m < 4 implies is_pauli(
            #[trigger] double(n, q, l, r, m),
            n,
        ) by {
            lemma_double(one, q, l, r, m);
        }
    }
    assert forall|i: int| 0 <= i < ts.len() implies is_turn(#[trigger] ts[i], n) by {
        let axis: Seq<u8> = ts[i].axis;
        assert(is_pauli(axis, n));
        lemma_quarter_is_turn(axis, n);
        if turns_by_angle(g.kind) {
            lemma_turn_by_is_turn(axis, angles, p, n);
        }
        if g.kind == rules::T {
            lemma_eighth_is_turn(axis, n);
        }
    }
}

} // verus!
