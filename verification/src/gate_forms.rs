//! The Clifford gates in their usual forms: what the products of turns come to.

use vstd::prelude::*;

use crate::conjugation::{
    agree, is_pauli, left, left_all, lemma_left_respects, lemma_scale, lemma_times_i, lemma_words,
    lemma_words_associate, plus, scale, sum, times_i, word_phase, word_product, Complex, Element,
    Turn,
};
use crate::pauli_group::is_axis;
use crate::rules;
use crate::unitary::{
    controlled_turns, double, identity_word, lemma_double, lemma_single, quarter, quarter_or_back,
    single,
};

verus! {

/// An element multiplied by a word from the left.
pub open spec fn word_times(k: Seq<u8>, f: Element) -> Element {
    |v: Seq<u8>|
        {
            let u = word_product(k, v);
            times_i(f(u), word_phase(k, u))
        }
}

/// An element times the `e`-th power of the imaginary unit.
pub open spec fn i_times(e: int, f: Element) -> Element {
    |v: Seq<u8>| times_i(f(v), e)
}

proof fn lemma_word_times_respects(k: Seq<u8>, f: Element, g: Element, n: nat)
    requires
        is_pauli(k, n),
        agree(n, f, g),
    ensures
        agree(n, word_times(k, f), word_times(k, g)),
{
    assert forall|v: Seq<u8>| #[trigger] is_pauli(v, n) implies word_times(k, f)(v) == word_times(
        k,
        g,
    )(v) by {
        lemma_words(k, v);
        assert(is_pauli(word_product(k, v), n));
    }
}

proof fn lemma_word_times_adds(k: Seq<u8>, f: Element, e: int, g: Element, n: nat)
    ensures
        agree(
            n,
            word_times(k, sum(f, i_times(e, g))),
            sum(word_times(k, f), i_times(e, word_times(k, g))),
        ),
{
    assert forall|v: Seq<u8>| #[trigger] is_pauli(v, n) implies word_times(
        k,
        sum(f, i_times(e, g)),
    )(v) == sum(word_times(k, f), i_times(e, word_times(k, g)))(v) by {
        let u: Seq<u8> = word_product(k, v);
        let p: int = word_phase(k, u);
        lemma_times_i(f(u), times_i(g(u), e), 0real, 0, p);
        lemma_times_i(g(u), g(u), 0real, e, p);
        lemma_times_i(g(u), g(u), 0real, p, e);
    }
}

/// To multiply by two words is to multiply by their product.
proof fn lemma_word_times_twice(k: Seq<u8>, l: Seq<u8>, f: Element, n: nat)
    requires
        is_pauli(k, n),
        is_pauli(l, n),
    ensures
        agree(
            n,
            word_times(k, word_times(l, f)),
            i_times(word_phase(k, l), word_times(word_product(k, l), f)),
        ),
{
    let kl: Seq<u8> = word_product(k, l);
    lemma_words(k, l);
    assert forall|v: Seq<u8>| #[trigger] is_pauli(v, n) implies word_times(k, word_times(l, f))(v)
        == i_times(word_phase(k, l), word_times(kl, f))(v) by {
        let u: Seq<u8> = word_product(k, v);
        let m: Seq<u8> = word_product(l, u);
        lemma_words(k, v);
        lemma_words(l, u);
        lemma_words(l, m);
        lemma_words_associate(l, k, v);
        lemma_words_associate(k, l, m);
        assert(word_product(kl, v) == m);
        assert(word_product(l, m) == u);
        lemma_times_i(f(m), f(m), 0real, word_phase(l, m), word_phase(k, u));
        lemma_times_i(f(m), f(m), 0real, word_phase(kl, m), word_phase(k, l));
    }
}

/// A word is its own inverse.
proof fn lemma_word_times_itself(k: Seq<u8>, f: Element, n: nat)
    requires
        is_pauli(k, n),
    ensures
        agree(n, word_times(k, word_times(k, f)), f),
{
    assert forall|v: Seq<u8>| #[trigger] is_pauli(v, n) implies word_times(k, word_times(k, f))(v)
        == f(v) by {
        let u: Seq<u8> = word_product(k, v);
        lemma_words(k, v);
        lemma_words(k, u);
        lemma_times_i(f(v), f(v), 0real, word_phase(k, v), word_phase(k, u));
    }
}

/// The exponent of a quarter turn, or one back: `1 - i k`, or `1 + i k`.
pub open spec fn exponent(back: bool) -> int {
    if back {
        1
    } else {
        3
    }
}

proof fn lemma_quarter_left(k: Seq<u8>, back: bool, f: Element, n: nat)
    ensures
        agree(
            n,
            left(quarter_or_back(k, back), f),
            sum(f, i_times(exponent(back), word_times(k, f))),
        ),
{
    assert forall|v: Seq<u8>| #[trigger] is_pauli(v, n) implies left(
        quarter_or_back(k, back),
        f,
    )(v) == sum(f, i_times(exponent(back), word_times(k, f)))(v) by {
        let u: Seq<u8> = word_product(k, v);
        let p: int = word_phase(k, u);
        let z: Complex = times_i(f(u), 3 + p);
        lemma_scale(1real, 0real, f(v), f(v));
        lemma_scale(1real, 0real, z, z);
        lemma_times_i(f(u), f(u), 0real, p, 3);
        lemma_times_i(f(u), f(u), 0real, p, 1);
        lemma_times_i(f(u), f(u), 0real, 3 + p, 2);
        assert(times_i(f(u), 3 + p + 2) == times_i(f(u), p + 1));
    }
}

/// The product of three quarter turns, written out.
pub open spec fn three_left(
    ks: (Seq<u8>, Seq<u8>, Seq<u8>),
    backs: (bool, bool, bool),
    f: Element,
) -> Element {
    let (a, b, c) = (exponent(backs.0), exponent(backs.1), exponent(backs.2));
    let third = sum(f, i_times(c, word_times(ks.2, f)));
    let second = sum(
        word_times(ks.1, f),
        i_times(c, word_times(ks.1, word_times(ks.2, f))),
    );
    let first = sum(
        word_times(ks.0, f),
        i_times(c, word_times(ks.0, word_times(ks.2, f))),
    );
    let both = sum(
        word_times(ks.0, word_times(ks.1, f)),
        i_times(c, word_times(ks.0, word_times(ks.1, word_times(ks.2, f)))),
    );
    sum(sum(third, i_times(b, second)), i_times(a, sum(first, i_times(b, both))))
}

proof fn lemma_three_left(
    ks: (Seq<u8>, Seq<u8>, Seq<u8>),
    backs: (bool, bool, bool),
    f: Element,
    n: nat,
)
    requires
        is_pauli(ks.0, n),
        is_pauli(ks.1, n),
        is_pauli(ks.2, n),
    ensures
        agree(
            n,
            left_all(
                seq![
                    quarter_or_back(ks.0, backs.0),
                    quarter_or_back(ks.1, backs.1),
                    quarter_or_back(ks.2, backs.2),
                ],
                f,
            ),
            three_left(ks, backs, f),
        ),
{
    let (a, b, c): (int, int, int) = (exponent(backs.0), exponent(backs.1), exponent(backs.2));
    let t0: Turn = quarter_or_back(ks.0, backs.0);
    let t1: Turn = quarter_or_back(ks.1, backs.1);
    let t2: Turn = quarter_or_back(ks.2, backs.2);
    let ts: Seq<Turn> = seq![t0, t1, t2];
    assert(ts.drop_first() =~= seq![t1, t2]);
    assert(ts.drop_first().drop_first() =~= seq![t2]);
    assert(ts.drop_first().drop_first().drop_first() =~= Seq::<Turn>::empty());
    reveal_with_fuel(left_all, 4);
    let f2: Element = word_times(ks.2, f);
    let f1: Element = word_times(ks.1, f);
    let f12: Element = word_times(ks.1, f2);
    let third: Element = sum(f, i_times(c, f2));
    let second: Element = sum(f1, i_times(c, f12));
    let both: Element = sum(
        word_times(ks.0, f1),
        i_times(c, word_times(ks.0, f12)),
    );
    let first: Element = sum(word_times(ks.0, f), i_times(c, word_times(ks.0, f2)));
    // the third turn
    lemma_quarter_left(ks.2, backs.2, f, n);
    // the second
    let g2: Element = sum(third, i_times(b, second));
    lemma_left_respects(t1, left(t2, f), third, n);
    lemma_quarter_left(ks.1, backs.1, third, n);
    lemma_word_times_adds(ks.1, f, c, f2, n);
    assert(agree(n, left(t1, left(t2, f)), g2));
    // the first
    lemma_left_respects(t0, left(t1, left(t2, f)), g2, n);
    lemma_quarter_left(ks.0, backs.0, g2, n);
    lemma_word_times_adds(ks.0, third, b, second, n);
    lemma_word_times_adds(ks.0, f, c, f2, n);
    lemma_word_times_adds(ks.0, f1, c, f12, n);
    assert(agree(n, word_times(ks.0, g2), sum(first, i_times(b, both))));
}

/// H is `X + Z`, up to the number `-2 i`.
pub proof fn lemma_hadamard_form(n: nat, q: u32, f: Element)
    requires
        q < n,
    ensures
        ({
            let x = single(n, q, rules::AXIS_X);
            let z = single(n, q, rules::AXIS_Z);
            agree(
                n,
                left_all(seq![quarter(z), quarter(x), quarter(z)], f),
                |v: Seq<u8>|
                    times_i(scale(2real, plus(word_times(x, f)(v), word_times(z, f)(v))), 3),
            )
        }),
{
    let x: Seq<u8> = single(n, q, rules::AXIS_X);
    let z: Seq<u8> = single(n, q, rules::AXIS_Z);
    let y: Seq<u8> = single(n, q, rules::AXIS_Y);
    lemma_single(identity_word(n), q, rules::AXIS_X);
    lemma_single(identity_word(n), q, rules::AXIS_Z);
    lemma_single(identity_word(n), q, rules::AXIS_Y);
    lemma_single(x, q, rules::AXIS_Z);
    lemma_single(z, q, rules::AXIS_X);
    lemma_single(y, q, rules::AXIS_Z);
    assert(word_product(z, x) =~= y);
    assert(word_product(x, z) =~= y);
    assert(word_product(z, y) =~= x);
    lemma_three_left((z, x, z), (false, false, false), f, n);
    lemma_word_times_itself(z, f, n);
    lemma_word_times_twice(z, x, f, n);
    lemma_word_times_twice(x, z, f, n);
    lemma_word_times_twice(z, y, f, n);
    lemma_word_times_respects(
        z,
        word_times(x, word_times(z, f)),
        i_times(word_phase(x, z), word_times(y, f)),
        n,
    );
    let xz: Element = i_times(3, word_times(y, f));
    assert forall|v: Seq<u8>| #[trigger] is_pauli(v, n) implies word_times(z, xz)(v) == times_i(
        word_times(z, word_times(y, f))(v),
        3,
    ) by {
        let u: Seq<u8> = word_product(z, v);
        lemma_times_i(word_times(y, f)(u), f(u), 0real, 3, word_phase(z, u));
        lemma_times_i(word_times(y, f)(u), f(u), 0real, word_phase(z, u), 3);
    }
}

/// A controlled Pauli gate is `1 + Z + A - Z A`, with `Z` on the control and `A` on the
/// target, up to the number `1 + i`: that is twice the sum of the identity where the
/// control is clear and `A` where it is set.
pub proof fn lemma_controlled_form(n: nat, control: u32, target: u32, axis: u8, f: Element)
    requires
        control < n,
        target < n,
        control != target,
        is_axis(axis),
    ensures
        ({
            let z = single(n, control, rules::AXIS_Z);
            let a = single(n, target, axis);
            let za = double(n, control, rules::AXIS_Z, target, axis);
            agree(
                n,
                left_all(controlled_turns(n, control, target, axis), f),
                |v: Seq<u8>|
                    {
                        let whole = plus(
                            plus(f(v), word_times(z, f)(v)),
                            plus(word_times(a, f)(v), times_i(word_times(za, f)(v), 2)),
                        );
                        plus(whole, times_i(whole, 1))
                    },
            )
        }),
{
    let z: Seq<u8> = single(n, control, rules::AXIS_Z);
    let a: Seq<u8> = single(n, target, axis);
    let za: Seq<u8> = double(n, control, rules::AXIS_Z, target, axis);
    let one: Seq<u8> = identity_word(n);
    lemma_single(one, control, rules::AXIS_Z);
    lemma_single(one, target, axis);
    lemma_double(one, control, rules::AXIS_Z, target, axis);
    lemma_single(a, control, rules::AXIS_Z);
    lemma_single(za, control, rules::AXIS_Z);
    lemma_single(za, target, axis);
    assert(word_product(z, a) =~= za);
    assert(word_product(z, za) =~= a);
    assert(word_product(a, za) =~= z);
    lemma_three_left((z, a, za), (true, true, false), f, n);
    lemma_word_times_twice(z, a, f, n);
    lemma_word_times_twice(z, za, f, n);
    lemma_word_times_twice(a, za, f, n);
    lemma_word_times_respects(
        z,
        word_times(a, word_times(za, f)),
        i_times(word_phase(a, za), word_times(z, f)),
        n,
    );
    assert(i_times(0, word_times(z, f)) =~= word_times(z, f));
    lemma_word_times_itself(z, f, n);
}

/// SWAP is `1 + XX + YY + ZZ`, up to the number `1 - i`.
pub proof fn lemma_swap_form(n: nat, q: u32, r: u32, f: Element)
    requires
        q < n,
        r < n,
        q != r,
    ensures
        ({
            let x = double(n, q, rules::AXIS_X, r, rules::AXIS_X);
            let y = double(n, q, rules::AXIS_Y, r, rules::AXIS_Y);
            let z = double(n, q, rules::AXIS_Z, r, rules::AXIS_Z);
            agree(
                n,
                left_all(seq![quarter(x), quarter(y), quarter(z)], f),
                |v: Seq<u8>|
                    {
                        let whole = plus(
                            plus(f(v), word_times(x, f)(v)),
                            plus(word_times(y, f)(v), word_times(z, f)(v)),
                        );
                        plus(whole, times_i(whole, 3))
                    },
            )
        }),
{
    let x: Seq<u8> = double(n, q, rules::AXIS_X, r, rules::AXIS_X);
    let y: Seq<u8> = double(n, q, rules::AXIS_Y, r, rules::AXIS_Y);
    let z: Seq<u8> = double(n, q, rules::AXIS_Z, r, rules::AXIS_Z);
    let one: Seq<u8> = identity_word(n);
    lemma_double(one, q, rules::AXIS_X, r, rules::AXIS_X);
    lemma_double(one, q, rules::AXIS_Y, r, rules::AXIS_Y);
    lemma_double(one, q, rules::AXIS_Z, r, rules::AXIS_Z);
    lemma_double(y, q, rules::AXIS_X, r, rules::AXIS_X);
    lemma_double(z, q, rules::AXIS_X, r, rules::AXIS_X);
    lemma_double(z, q, rules::AXIS_Y, r, rules::AXIS_Y);
    assert(word_product(x, y) =~= z);
    assert(word_product(x, z) =~= y);
    assert(word_product(y, z) =~= x);
    lemma_three_left((x, y, z), (false, false, false), f, n);
    lemma_word_times_twice(x, y, f, n);
    lemma_word_times_twice(x, z, f, n);
    lemma_word_times_twice(y, z, f, n);
    let yz: Element = i_times(word_phase(y, z), word_times(x, f));
    lemma_word_times_respects(x, word_times(y, word_times(z, f)), yz, n);
    lemma_word_times_itself(x, f, n);
    assert forall|v: Seq<u8>| #[trigger] is_pauli(v, n) implies word_times(x, yz)(v) == times_i(
        word_times(x, word_times(x, f))(v),
        2,
    ) by {
        let u: Seq<u8> = word_product(x, v);
        lemma_times_i(word_times(x, f)(u), f(u), 0real, 2, word_phase(x, u));
        lemma_times_i(word_times(x, f)(u), f(u), 0real, word_phase(x, u), 2);
    }
}

} // verus!
