//! Propagation is conjugation: what a circuit makes of an observable is the observable
//! conjugated by the circuit.
//!
//! An observable is an element of the algebra that the Pauli words span, with complex
//! coefficients. Up to a number, every gate is a product of turns: a turn about the
//! word `K` is `a - i b K`, where `a` and `b` are in the ratio of the cosine and the
//! sine of half its angle.

use vstd::prelude::*;

use crate::bits::is_word;
use crate::norm::lemma_mul;
use crate::pauli_group::product_phase;
use crate::rules::product;

verus! {

// ---------------------------------------------------------------------
// Complex numbers
// ---------------------------------------------------------------------

/// A complex number.
pub struct Complex {
    pub re: real,
    pub im: real,
}

/// A real number as a complex one.
pub open spec fn from_real(x: real) -> Complex {
    Complex { re: x, im: 0real }
}

/// The sum of two complex numbers.
pub open spec fn plus(z: Complex, w: Complex) -> Complex {
    Complex { re: z.re + w.re, im: z.im + w.im }
}

/// A complex number times a real one.
pub open spec fn scale(r: real, z: Complex) -> Complex {
    Complex { re: r * z.re, im: r * z.im }
}

/// A complex number times the `k`-th power of the imaginary unit.
pub open spec fn times_i(z: Complex, k: int) -> Complex {
    if k % 4 == 0 {
        z
    } else if k % 4 == 1 {
        Complex { re: -z.im, im: z.re }
    } else if k % 4 == 2 {
        Complex { re: -z.re, im: -z.im }
    } else {
        Complex { re: z.im, im: -z.re }
    }
}

pub(crate) proof fn lemma_scale(r: real, s: real, z: Complex, w: Complex)
    ensures
        scale(r, plus(z, w)) == plus(scale(r, z), scale(r, w)),
        scale(r, scale(s, z)) == scale(r * s, z),
        plus(scale(r, z), scale(s, z)) == scale(r + s, z),
        scale(0real, z) == from_real(0real),
        scale(1real, z) == z,
        scale(-r, z) == times_i(scale(r, z), 2),
{
    lemma_mul(r, z.re, w.re);
    lemma_mul(r, z.im, w.im);
    lemma_mul(r, s, z.re);
    lemma_mul(r, s, z.im);
    lemma_mul(z.re, r, s);
    lemma_mul(z.im, r, s);
    lemma_mul(z.re, s, 0real);
    lemma_mul(z.im, s, 0real);
    lemma_mul(z.re, r + s, 0real);
    lemma_mul(z.im, r + s, 0real);
    lemma_mul(z.re, 0real, 0real);
    lemma_mul(z.im, 0real, 0real);
    lemma_mul(z.re, 1real, 0real);
    lemma_mul(z.im, 1real, 0real);
    let x: real = z.re;
    let y: real = z.im;
    assert((-r) * x == -(r * x)) by (nonlinear_arith);
    assert((-r) * y == -(r * y)) by (nonlinear_arith);
}

pub(crate) proof fn lemma_times_i(z: Complex, w: Complex, r: real, j: int, k: int)
    ensures
        times_i(plus(z, w), k) == plus(times_i(z, k), times_i(w, k)),
        times_i(scale(r, z), k) == scale(r, times_i(z, k)),
        times_i(times_i(z, j), k) == times_i(z, j + k),
{
    let x: real = z.re;
    let y: real = z.im;
    assert(r * (-x) == -(r * x)) by (nonlinear_arith);
    assert(r * (-y) == -(r * y)) by (nonlinear_arith);
}

// ---------------------------------------------------------------------
// Words
// ---------------------------------------------------------------------

/// Whether `w` is a Pauli word on `n` qubits.
pub open spec fn is_pauli(w: Seq<u8>, n: nat) -> bool {
    is_word(w) && w.len() == n
}

/// The product of two words, up to its phase.
pub open spec fn word_product(a: Seq<u8>, b: Seq<u8>) -> Seq<u8> {
    Seq::new(a.len(), |q: int| product(a[q], b[q]))
}

/// The phase of the product of two words, as a power of the imaginary unit.
pub open spec fn word_phase(a: Seq<u8>, b: Seq<u8>) -> int
    decreases a.len(),
{
    if a.len() == 0 {
        0
    } else {
        word_phase(a.drop_last(), b.drop_last()) + product_phase(a.last(), b.last())
    }
}

/// Whether two words anticommute.
pub open spec fn words_anticommute(a: Seq<u8>, b: Seq<u8>) -> bool {
    word_phase(a, b) % 2 != 0
}

proof fn lemma_labels(a: u8, b: u8)
    requires
        a < 4,
        b < 4,
    ensures
        product(a, b) < 4,
        product(a, b) == product(b, a),
        product(a, product(a, b)) == b,
        (product_phase(a, b) + product_phase(b, a)) % 4 == 0,
        (product_phase(a, b) + product_phase(a, product(a, b))) % 4 == 0,
{
}

proof fn lemma_labels_associate(a: u8, b: u8, c: u8)
    requires
        a < 4,
        b < 4,
        c < 4,
    ensures
        product(a, product(b, c)) == product(product(a, b), c),
        (product_phase(a, b) + product_phase(product(a, b), c)) % 4 == (product_phase(b, c)
            + product_phase(a, product(b, c))) % 4,
{
}

pub(crate) proof fn lemma_words(a: Seq<u8>, b: Seq<u8>)
    requires
        is_pauli(a, b.len()),
        is_word(b),
    ensures
        is_pauli(word_product(a, b), b.len()),
        word_product(a, b) == word_product(b, a),
        word_product(a, word_product(a, b)) == b,
        (word_phase(a, b) + word_phase(b, a)) % 4 == 0,
        (word_phase(a, b) + word_phase(a, word_product(a, b))) % 4 == 0,
    decreases a.len(),
{
    assert forall|q: int| 0 <= q < a.len() implies word_product(a, b)[q] < 4 && word_product(a, b)[q]
        == word_product(b, a)[q] && word_product(a, word_product(a, b))[q] == b[q] by {
        assert(a[q] < 4 && b[q] < 4);
        lemma_labels(a[q], b[q]);
    }
    assert(word_product(a, b) =~= word_product(b, a));
    assert(word_product(a, word_product(a, b)) =~= b);
    if a.len() > 0 {
        let c: Seq<u8> = a.drop_last();
        let d: Seq<u8> = b.drop_last();
        assert forall|q: int| 0 <= q < c.len() implies c[q] < 4 && d[q] < 4 by {
            assert(a[q] < 4 && b[q] < 4);
        }
        lemma_words(c, d);
        assert(a[a.len() - 1] < 4 && b[a.len() - 1] < 4);
        lemma_labels(a.last(), b.last());
        assert(word_product(a, b).drop_last() =~= word_product(c, d));
    }
}

pub(crate) proof fn lemma_words_associate(a: Seq<u8>, b: Seq<u8>, c: Seq<u8>)
    requires
        is_pauli(a, b.len()),
        is_pauli(c, b.len()),
        is_word(b),
    ensures
        word_product(a, word_product(b, c)) == word_product(word_product(a, b), c),
        (word_phase(a, b) + word_phase(word_product(a, b), c)) % 4 == (word_phase(b, c)
            + word_phase(a, word_product(b, c))) % 4,
    decreases a.len(),
{
    assert forall|q: int| 0 <= q < a.len() implies word_product(a, word_product(b, c))[q]
        == word_product(word_product(a, b), c)[q] by {
        assert(a[q] < 4 && b[q] < 4 && c[q] < 4);
        lemma_labels_associate(a[q], b[q], c[q]);
    }
    assert(word_product(a, word_product(b, c)) =~= word_product(word_product(a, b), c));
    if a.len() > 0 {
        let d: Seq<u8> = a.drop_last();
        let e: Seq<u8> = b.drop_last();
        let f: Seq<u8> = c.drop_last();
        assert forall|q: int| 0 <= q < d.len() implies d[q] < 4 && e[q] < 4 && f[q] < 4 by {
            assert(a[q] < 4 && b[q] < 4 && c[q] < 4);
        }
        lemma_words_associate(d, e, f);
        assert(a[a.len() - 1] < 4 && b[a.len() - 1] < 4 && c[a.len() - 1] < 4);
        lemma_labels_associate(a.last(), b.last(), c.last());
        assert(word_product(a, b).drop_last() =~= word_product(d, e));
        assert(word_product(b, c).drop_last() =~= word_product(e, f));
    }
}

// ---------------------------------------------------------------------
// Elements and turns
// ---------------------------------------------------------------------

/// An element of the algebra: the coefficient of each word.
pub type Element = spec_fn(Seq<u8>) -> Complex;

/// Whether two elements agree on the words on `n` qubits.
pub open spec fn agree(n: nat, f: Element, g: Element) -> bool {
    forall|v: Seq<u8>| #[trigger] is_pauli(v, n) ==> f(v) == g(v)
}

/// The sum of two elements.
pub open spec fn sum(f: Element, g: Element) -> Element {
    |v: Seq<u8>| plus(f(v), g(v))
}

/// An element times a real number.
pub open spec fn multiple(r: real, f: Element) -> Element {
    |v: Seq<u8>| scale(r, f(v))
}

/// A turn about the word `axis`, by the angle with the cosine `cos` and the sine `sin`.
/// The cosine and the sine of the half angle are in the ratio of `half_cos` and
/// `half_sin`.
pub struct Turn {
    pub axis: Seq<u8>,
    pub half_cos: real,
    pub half_sin: real,
    pub cos: real,
    pub sin: real,
}

/// Whether the half angle of a turn goes with its angle. Both are fixed by the half
/// angle: `cos` is the difference of the squares of `half_cos` and `half_sin` over
/// their sum, and `sin` is twice their product over it.
pub open spec fn is_turn(t: Turn, n: nat) -> bool {
    let (a, b, c, s) = (t.half_cos, t.half_sin, t.cos, t.sin);
    &&& is_pauli(t.axis, n)
    &&& a * a + b * b > 0real
    &&& c * (a * a + b * b) == a * a - b * b
    &&& s * (a * a + b * b) == 2real * (a * b)
}

/// `U f`, where `U` is `half_cos - i half_sin axis`.
pub open spec fn left(t: Turn, f: Element) -> Element {
    |v: Seq<u8>|
        {
            let u = word_product(t.axis, v);
            plus(
                scale(t.half_cos, f(v)),
                scale(t.half_sin, times_i(f(u), 3 + word_phase(t.axis, u))),
            )
        }
}

/// `f U`, where `U` is `half_cos - i half_sin axis`.
pub open spec fn right(f: Element, t: Turn) -> Element {
    |v: Seq<u8>|
        {
            let u = word_product(t.axis, v);
            plus(
                scale(t.half_cos, f(v)),
                scale(t.half_sin, times_i(f(u), 3 + word_phase(u, t.axis))),
            )
        }
}

/// What a turn makes of an element: a word that commutes with the axis stays, any other
/// becomes `cos` times itself and `sin` times `i axis` times it.
pub open spec fn turn(t: Turn, f: Element) -> Element {
    |v: Seq<u8>|
        {
            let u = word_product(t.axis, v);
            if words_anticommute(t.axis, v) {
                plus(
                    scale(t.cos, f(v)),
                    scale(t.sin, times_i(f(u), 1 + word_phase(t.axis, u))),
                )
            } else {
                f(v)
            }
        }
}

/// The angle of a turn against its half angle.
proof fn lemma_half_angle(t: Turn, n: nat)
    requires
        is_turn(t, n),
    ensures
        t.half_cos * t.cos + t.half_sin * t.sin == t.half_cos,
        t.half_cos * t.sin - t.half_sin * t.cos == t.half_sin,
{
    let (a, b, c, s): (real, real, real, real) = (t.half_cos, t.half_sin, t.cos, t.sin);
    let m: real = a * a + b * b;
    // m (a c + b s) == a (a a - b b) + b (2 a b) == m a
    lemma_mul(a, c, m);
    lemma_mul(b, s, m);
    lemma_mul(a, s, m);
    lemma_mul(b, c, m);
    assert(a * (a * a - b * b) + b * (2real * (a * b)) == a * (a * a + b * b)) by (nonlinear_arith);
    assert(a * (2real * (a * b)) - b * (a * a - b * b) == b * (a * a + b * b)) by (nonlinear_arith);
    let x: real = a * c + b * s;
    let y: real = a * s - b * c;
    assert(x * m == (a * c) * m + (b * s) * m) by {
        lemma_mul(m, a * c, b * s);
        lemma_mul(m, x, 0real);
        lemma_mul(m, a * c, 0real);
        lemma_mul(m, b * s, 0real);
    }
    assert(y * m == (a * s) * m - (b * c) * m) by {
        lemma_mul(m, a * s, -(b * c));
        lemma_mul(m, y, 0real);
        lemma_mul(m, a * s, 0real);
        lemma_mul(m, b * c, 0real);
        let z: real = b * c;
        assert(m * (-z) == -(m * z)) by (nonlinear_arith);
    }
    assert(x == a) by (nonlinear_arith)
        requires
            x * m == a * m,
            m > 0real,
    ;
    assert(y == b) by (nonlinear_arith)
        requires
            y * m == b * m,
            m > 0real,
    ;
}

/// A turn conjugates: `f U == U turn(f)`.
proof fn lemma_turn_conjugates(t: Turn, f: Element, n: nat)
    requires
        is_turn(t, n),
    ensures
        agree(n, right(f, t), left(t, turn(t, f))),
{
    let (a, b, c, s): (real, real, real, real) = (t.half_cos, t.half_sin, t.cos, t.sin);
    lemma_half_angle(t, n);
    assert forall|v: Seq<u8>| #[trigger] is_pauli(v, n) implies right(f, t)(v) == left(
        t,
        turn(t, f),
    )(v) by {
        let u: Seq<u8> = word_product(t.axis, v);
        let p: int = word_phase(t.axis, u);
        let q: int = word_phase(t.axis, v);
        lemma_words(t.axis, v);
        lemma_words(t.axis, u);
        if words_anticommute(t.axis, v) {
            let z: Complex = f(v);
            let w: Complex = times_i(f(u), 1 + p);
            let back: Complex = times_i(z, 1 + q);
            assert(turn(t, f)(v) == plus(scale(c, z), scale(s, w)));
            assert(turn(t, f)(u) == plus(scale(c, f(u)), scale(s, back)));
            lemma_times_i(scale(c, f(u)), scale(s, back), 0real, 0, 3 + p);
            lemma_times_i(f(u), z, c, 0, 3 + p);
            lemma_times_i(back, z, s, 0, 3 + p);
            lemma_times_i(z, z, 0real, 1 + q, 3 + p);
            lemma_times_i(f(u), z, 0real, 1 + p, 2);
            assert(times_i(back, 3 + p) == z);
            assert(times_i(f(u), 3 + p) == times_i(w, 2));
            assert(times_i(turn(t, f)(u), 3 + p) == plus(scale(c, times_i(w, 2)), scale(s, z)));
            lemma_scale(a, 0real, scale(c, z), scale(s, w));
            lemma_scale(a, c, z, z);
            lemma_scale(a, s, w, w);
            lemma_scale(b, 0real, scale(c, times_i(w, 2)), scale(s, z));
            lemma_scale(b, c, times_i(w, 2), z);
            lemma_scale(b, s, z, z);
            lemma_times_i(w, w, b * c, 0, 2);
            lemma_scale(b * c, 0real, w, w);
            lemma_scale(a * c, b * s, z, z);
            lemma_scale(a * s, -(b * c), w, w);
            assert(times_i(f(u), 3 + word_phase(u, t.axis)) == w);
        }
    }
}

/// Multiplying from the left and from the right can change places.
proof fn lemma_sides_commute(t: Turn, f: Element, r: Turn, n: nat)
    requires
        is_pauli(t.axis, n),
        is_pauli(r.axis, n),
    ensures
        agree(n, right(left(t, f), r), left(t, right(f, r))),
{
    let (a, b): (real, real) = (t.half_cos, t.half_sin);
    let (c, d): (real, real) = (r.half_cos, r.half_sin);
    assert forall|v: Seq<u8>| #[trigger] is_pauli(v, n) implies right(left(t, f), r)(v) == left(
        t,
        right(f, r),
    )(v) by {
        let x: Seq<u8> = word_product(t.axis, v);
        let y: Seq<u8> = word_product(r.axis, v);
        let w: Seq<u8> = word_product(r.axis, x);
        lemma_words(t.axis, v);
        lemma_words(r.axis, v);
        lemma_words(r.axis, x);
        lemma_words(t.axis, y);
        lemma_words(t.axis, w);
        lemma_words(t.axis, r.axis);
        lemma_words_associate(t.axis, r.axis, v);
        lemma_words_associate(r.axis, t.axis, v);
        assert(w == word_product(t.axis, y));
        lemma_words_associate(t.axis, w, r.axis);
        assert(word_product(t.axis, w) == y);
        assert(word_product(w, r.axis) == x) by {
            lemma_words(w, r.axis);
        }
        let i: int = 3 + word_phase(t.axis, x);
        let j: int = 3 + word_phase(y, r.axis);
        let k: int = 3 + word_phase(w, r.axis);
        let l: int = 3 + word_phase(t.axis, w);
        assert((l + j) % 4 == (k + i) % 4);
        // U (f V) at v, and (U f) V at v
        lemma_times_i(scale(a, f(y)), scale(b, times_i(f(w), l)), 0real, 0, j);
        lemma_times_i(f(y), f(y), a, 0, j);
        lemma_times_i(times_i(f(w), l), f(y), b, 0, j);
        lemma_times_i(f(w), f(w), 0real, l, j);
        lemma_times_i(scale(c, f(x)), scale(d, times_i(f(w), k)), 0real, 0, i);
        lemma_times_i(f(x), f(x), c, 0, i);
        lemma_times_i(times_i(f(w), k), f(x), d, 0, i);
        lemma_times_i(f(w), f(w), 0real, k, i);
        let fy: Complex = times_i(f(y), j);
        let fx: Complex = times_i(f(x), i);
        let fw: Complex = times_i(f(w), l + j);
        assert(times_i(f(w), k + i) == fw);
        lemma_scale(c, a, f(v), f(v));
        lemma_scale(a, c, f(v), f(v));
        lemma_scale(c, b, fx, fx);
        lemma_scale(b, c, fx, fx);
        lemma_scale(d, a, fy, fy);
        lemma_scale(a, d, fy, fy);
        lemma_scale(d, b, fw, fw);
        lemma_scale(b, d, fw, fw);
        lemma_scale(c, 0real, scale(a, f(v)), scale(b, fx));
        lemma_scale(d, 0real, scale(a, fy), scale(b, fw));
        lemma_scale(a, 0real, scale(c, f(v)), scale(d, fy));
        lemma_scale(b, 0real, scale(c, fx), scale(d, fw));
        lemma_mul(a, c, 0real);
        lemma_mul(b, c, 0real);
        lemma_mul(a, d, 0real);
        lemma_mul(b, d, 0real);
    }
}

/// The turn back.
pub open spec fn turn_back(t: Turn) -> Turn {
    Turn { half_sin: -t.half_sin, sin: -t.sin, ..t }
}

/// Turns are unitary up to a number: a turn and the turn back are the sum of the squares
/// of `half_cos` and `half_sin`.
pub proof fn lemma_turn_is_unitary(t: Turn, f: Element, n: nat)
    requires
        is_turn(t, n),
    ensures
        is_turn(turn_back(t), n),
        agree(
            n,
            left(turn_back(t), left(t, f)),
            multiple(t.half_cos * t.half_cos + t.half_sin * t.half_sin, f),
        ),
{
    let (a, b, s): (real, real, real) = (t.half_cos, t.half_sin, t.sin);
    let m: real = a * a + b * b;
    assert((-b) * (-b) == b * b && a * (-b) == -(a * b) && (-b) * b == -(b * b) && (-b) * a == -(a
        * b)) by (nonlinear_arith);
    assert((-s) * m == -(s * m)) by (nonlinear_arith);
    assert forall|v: Seq<u8>| #[trigger] is_pauli(v, n) implies left(turn_back(t), left(t, f))(v)
        == multiple(m, f)(v) by {
        let u: Seq<u8> = word_product(t.axis, v);
        let i: int = 3 + word_phase(t.axis, u);
        let j: int = 3 + word_phase(t.axis, v);
        lemma_words(t.axis, v);
        lemma_words(t.axis, u);
        assert(left(t, f)(v) == plus(scale(a, f(v)), scale(b, times_i(f(u), i))));
        assert(left(t, f)(u) == plus(scale(a, f(u)), scale(b, times_i(f(v), j))));
        lemma_times_i(scale(a, f(u)), scale(b, times_i(f(v), j)), 0real, 0, i);
        lemma_times_i(f(u), f(u), a, 0, i);
        lemma_times_i(times_i(f(v), j), f(v), b, 0, i);
        lemma_times_i(f(v), f(v), 0real, j, i);
        let z: Complex = f(v);
        let w: Complex = times_i(f(u), i);
        assert(times_i(z, j + i) == times_i(z, 2));
        lemma_scale(a, 0real, scale(a, z), scale(b, w));
        lemma_scale(a, a, z, z);
        lemma_scale(a, b, w, w);
        lemma_scale(-b, 0real, scale(a, w), scale(b, times_i(z, 2)));
        lemma_scale(-b, a, w, w);
        lemma_scale(-b, b, times_i(z, 2), w);
        lemma_times_i(z, z, b * b, 0, 2);
        lemma_scale(b * b, 0real, times_i(z, 2), z);
        lemma_scale(a * b, -(a * b), w, w);
        lemma_scale(a * a, b * b, z, z);
    }
}

/// Elements that a turn makes the same from the left are the same.
proof fn lemma_left_cancels(t: Turn, f: Element, g: Element, n: nat)
    requires
        is_turn(t, n),
        agree(n, left(t, f), left(t, g)),
    ensures
        agree(n, f, g),
{
    let back: Turn = turn_back(t);
    let m: real = t.half_cos * t.half_cos + t.half_sin * t.half_sin;
    lemma_turn_is_unitary(t, f, n);
    lemma_turn_is_unitary(t, g, n);
    lemma_left_respects(back, left(t, f), left(t, g), n);
    assert forall|v: Seq<u8>| #[trigger] is_pauli(v, n) implies f(v) == g(v) by {
        assert(scale(m, f(v)) == scale(m, g(v)));
        let (p, q): (real, real) = (f(v).re, g(v).re);
        let (x, y): (real, real) = (f(v).im, g(v).im);
        assert(p == q) by (nonlinear_arith)
            requires
                m * p == m * q,
                m > 0real,
        ;
        assert(x == y) by (nonlinear_arith)
            requires
                m * x == m * y,
                m > 0real,
        ;
    }
}

pub(crate) proof fn lemma_left_respects(t: Turn, f: Element, g: Element, n: nat)
    requires
        is_pauli(t.axis, n),
        agree(n, f, g),
    ensures
        agree(n, left(t, f), left(t, g)),
{
    assert forall|v: Seq<u8>| #[trigger] is_pauli(v, n) implies left(t, f)(v) == left(t, g)(v) by {
        lemma_words(t.axis, v);
        assert(is_pauli(word_product(t.axis, v), n));
    }
}

proof fn lemma_right_respects(f: Element, g: Element, t: Turn, n: nat)
    requires
        is_pauli(t.axis, n),
        agree(n, f, g),
    ensures
        agree(n, right(f, t), right(g, t)),
{
    assert forall|v: Seq<u8>| #[trigger] is_pauli(v, n) implies right(f, t)(v) == right(g, t)(v) by {
        lemma_words(t.axis, v);
        assert(is_pauli(word_product(t.axis, v), n));
    }
}

pub(crate) proof fn lemma_turn_respects(t: Turn, f: Element, g: Element, n: nat)
    requires
        is_pauli(t.axis, n),
        agree(n, f, g),
    ensures
        agree(n, turn(t, f), turn(t, g)),
{
    assert forall|v: Seq<u8>| #[trigger] is_pauli(v, n) implies turn(t, f)(v) == turn(t, g)(v) by {
        lemma_words(t.axis, v);
        assert(is_pauli(word_product(t.axis, v), n));
    }
}

pub(crate) proof fn lemma_turn_adds(t: Turn, f: Element, g: Element, n: nat)
    ensures
        agree(n, turn(t, sum(f, g)), sum(turn(t, f), turn(t, g))),
{
    assert forall|v: Seq<u8>| #[trigger] is_pauli(v, n) implies turn(t, sum(f, g))(v) == sum(
        turn(t, f),
        turn(t, g),
    )(v) by {
        let u: Seq<u8> = word_product(t.axis, v);
        let k: int = 1 + word_phase(t.axis, u);
        lemma_times_i(f(u), g(u), 0real, 0, k);
        lemma_scale(t.cos, 0real, f(v), g(v));
        lemma_scale(t.sin, 0real, times_i(f(u), k), times_i(g(u), k));
    }
}

// ---------------------------------------------------------------------
// Products of turns
// ---------------------------------------------------------------------

/// Whether all turns are turns of `n` qubits.
pub open spec fn all_turns(ts: Seq<Turn>, n: nat) -> bool {
    forall|i: int| 0 <= i < ts.len() ==> is_turn(#[trigger] ts[i], n)
}

/// `U f`, where `U` is the product of turns, the first on the left.
pub open spec fn left_all(ts: Seq<Turn>, f: Element) -> Element
    decreases ts.len(),
{
    if ts.len() == 0 {
        f
    } else {
        left(ts[0], left_all(ts.drop_first(), f))
    }
}

/// `f U`, where `U` is the product of turns, the first on the left.
pub open spec fn right_all(f: Element, ts: Seq<Turn>) -> Element
    decreases ts.len(),
{
    if ts.len() == 0 {
        f
    } else {
        right_all(right(f, ts[0]), ts.drop_first())
    }
}

/// What turns make of an element, the first turn first.
pub open spec fn turn_all(ts: Seq<Turn>, f: Element) -> Element
    decreases ts.len(),
{
    if ts.len() == 0 {
        f
    } else {
        turn_all(ts.drop_first(), turn(ts[0], f))
    }
}

pub(crate) proof fn lemma_rest(ts: Seq<Turn>, n: nat)
    requires
        all_turns(ts, n),
        ts.len() > 0,
    ensures
        is_turn(ts[0], n),
        all_turns(ts.drop_first(), n),
{
    assert forall|i: int| 0 <= i < ts.drop_first().len() implies is_turn(
        #[trigger] ts.drop_first()[i],
        n,
    ) by {
        assert(ts.drop_first()[i] == ts[i + 1]);
    }
}

proof fn lemma_right_all_respects(f: Element, g: Element, ts: Seq<Turn>, n: nat)
    requires
        all_turns(ts, n),
        agree(n, f, g),
    ensures
        agree(n, right_all(f, ts), right_all(g, ts)),
    decreases ts.len(),
{
    if ts.len() > 0 {
        lemma_rest(ts, n);
        lemma_right_respects(f, g, ts[0], n);
        lemma_right_all_respects(right(f, ts[0]), right(g, ts[0]), ts.drop_first(), n);
    }
}

pub(crate) proof fn lemma_turn_all_respects(ts: Seq<Turn>, f: Element, g: Element, n: nat)
    requires
        all_turns(ts, n),
        agree(n, f, g),
    ensures
        agree(n, turn_all(ts, f), turn_all(ts, g)),
    decreases ts.len(),
{
    if ts.len() > 0 {
        lemma_rest(ts, n);
        lemma_turn_respects(ts[0], f, g, n);
        lemma_turn_all_respects(ts.drop_first(), turn(ts[0], f), turn(ts[0], g), n);
    }
}

pub(crate) proof fn lemma_turn_all_adds(ts: Seq<Turn>, f: Element, g: Element, n: nat)
    requires
        all_turns(ts, n),
    ensures
        agree(n, turn_all(ts, sum(f, g)), sum(turn_all(ts, f), turn_all(ts, g))),
    decreases ts.len(),
{
    if ts.len() > 0 {
        let rest: Seq<Turn> = ts.drop_first();
        lemma_rest(ts, n);
        lemma_turn_adds(ts[0], f, g, n);
        lemma_turn_all_respects(
            rest,
            turn(ts[0], sum(f, g)),
            sum(turn(ts[0], f), turn(ts[0], g)),
            n,
        );
        lemma_turn_all_adds(rest, turn(ts[0], f), turn(ts[0], g), n);
    }
}

pub(crate) proof fn lemma_turn_all_concat(ts: Seq<Turn>, us: Seq<Turn>, f: Element)
    ensures
        turn_all(ts + us, f) == turn_all(us, turn_all(ts, f)),
    decreases ts.len(),
{
    if ts.len() == 0 {
        assert(ts + us =~= us);
    } else {
        assert((ts + us).drop_first() =~= ts.drop_first() + us);
        lemma_turn_all_concat(ts.drop_first(), us, turn(ts[0], f));
    }
}

pub(crate) proof fn lemma_left_all_respects(ts: Seq<Turn>, f: Element, g: Element, n: nat)
    requires
        all_turns(ts, n),
        agree(n, f, g),
    ensures
        agree(n, left_all(ts, f), left_all(ts, g)),
    decreases ts.len(),
{
    if ts.len() > 0 {
        let rest: Seq<Turn> = ts.drop_first();
        lemma_rest(ts, n);
        lemma_left_all_respects(rest, f, g, n);
        lemma_left_respects(ts[0], left_all(rest, f), left_all(rest, g), n);
    }
}

proof fn lemma_left_passes(t: Turn, f: Element, ts: Seq<Turn>, n: nat)
    requires
        is_turn(t, n),
        all_turns(ts, n),
    ensures
        agree(n, right_all(left(t, f), ts), left(t, right_all(f, ts))),
    decreases ts.len(),
{
    if ts.len() > 0 {
        let rest: Seq<Turn> = ts.drop_first();
        lemma_rest(ts, n);
        lemma_sides_commute(t, f, ts[0], n);
        lemma_right_all_respects(right(left(t, f), ts[0]), left(t, right(f, ts[0])), rest, n);
        lemma_left_passes(t, right(f, ts[0]), rest, n);
    }
}

/// Turns conjugate: where `U` is their product, `f U` is `U` times what they make of
/// `f`.
pub proof fn lemma_turns_conjugate(ts: Seq<Turn>, f: Element, n: nat)
    requires
        all_turns(ts, n),
    ensures
        agree(n, right_all(f, ts), left_all(ts, turn_all(ts, f))),
    decreases ts.len(),
{
    if ts.len() > 0 {
        let rest: Seq<Turn> = ts.drop_first();
        let g: Element = turn(ts[0], f);
        lemma_rest(ts, n);
        lemma_turn_conjugates(ts[0], f, n);
        lemma_right_all_respects(right(f, ts[0]), left(ts[0], g), rest, n);
        lemma_left_passes(ts[0], g, rest, n);
        lemma_turns_conjugate(rest, g, n);
        lemma_left_respects(ts[0], right_all(g, rest), left_all(rest, turn_all(rest, g)), n);
    }
}

/// There is one conjugate only: elements that a product of turns makes the same from the
/// left are the same.
pub proof fn lemma_conjugate_is_unique(ts: Seq<Turn>, f: Element, g: Element, n: nat)
    requires
        all_turns(ts, n),
        agree(n, left_all(ts, f), left_all(ts, g)),
    ensures
        agree(n, f, g),
    decreases ts.len(),
{
    if ts.len() > 0 {
        let rest: Seq<Turn> = ts.drop_first();
        lemma_rest(ts, n);
        lemma_left_cancels(ts[0], left_all(rest, f), left_all(rest, g), n);
        lemma_conjugate_is_unique(rest, f, g, n);
    }
}

} // verus!
