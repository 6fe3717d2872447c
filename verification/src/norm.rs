//! Gates keep the norm: in exact arithmetic, the squared values of the words that a
//! gate makes of a word add up to the squared value of that word.

use vstd::prelude::*;

use crate::bits::is_word;
use crate::evolve::with_branches;
use crate::model::{
    branch_term, branch_terms, branches, controlled_rotation_branch, controlled_rotation_branches,
    copies, is_two_qubit, pair_code, param_index, phase, scaled, second_wire, Branch, Factor, Gate,
    Term,
};
use crate::pauli_map::terms_at;
use crate::pruning::is_proper;
use crate::rules;
use crate::rules::CRBranch;
use crate::scalar::{is_inv_sqrt2, Arith};

verus! {

/// The product of the values with the given indices.
pub open spec fn product_at(values: Seq<real>, idx: Seq<u32>) -> real
    decreases idx.len(),
{
    if idx.len() == 0 {
        1real
    } else {
        product_at(values, idx.drop_last()) * values[idx.last() as int]
    }
}

/// The value of a term: its coefficient times its sines and its cosines.
pub open spec fn term_at(t: Term<real>, sins: Seq<real>, coss: Seq<real>) -> real {
    t.coeff * (product_at(sins, t.sin_idx) * product_at(coss, t.cos_idx))
}

/// The value of a list of terms.
pub open spec fn terms_value(ts: Seq<Term<real>>, sins: Seq<real>, coss: Seq<real>) -> real
    decreases ts.len(),
{
    if ts.len() == 0 {
        0real
    } else {
        terms_value(ts.drop_last(), sins, coss) + term_at(ts.last(), sins, coss)
    }
}

/// The square of a number.
pub open spec fn square(x: real) -> real {
    x * x
}

/// The squared values of the first `n` branches of a list of terms, added up.
pub open spec fn squares(
    bs: Seq<Branch>,
    p: u32,
    ts: Seq<Term<real>>,
    sins: Seq<real>,
    coss: Seq<real>,
    n: nat,
) -> real
    decreases n,
{
    if n == 0 {
        0real
    } else {
        squares(bs, p, ts, sins, coss, (n - 1) as nat) + square(
            terms_value(branch_terms(bs[n - 1], p, ts), sins, coss),
        )
    }
}

/// The `n`-th power of a number.
pub open spec fn power(x: real, n: nat) -> real
    decreases n,
{
    if n == 0 {
        1real
    } else {
        power(x, (n - 1) as nat) * x
    }
}

/// The value of a factor.
pub open spec fn factor_value(f: Factor) -> real {
    match f {
        Factor::One => 1real,
        Factor::Minus => -1real,
        Factor::Sign(sign) => sign as real,
        Factor::Phase(negative) => phase::<real>(negative),
    }
}

/// What a branch multiplies the value of a term by, with the sine `s` and the cosine
/// `c` of its angle.
pub open spec fn branch_weight(b: Branch, s: real, c: real) -> real {
    factor_value(b.factor) * (power(s, b.n_sin) * power(c, b.n_cos))
}

// ---------------------------------------------------------------------
// Branches multiply values
// ---------------------------------------------------------------------

pub(crate) proof fn lemma_mul(x: real, y: real, z: real)
    ensures
        x * (y * z) == (x * y) * z,
        x * y == y * x,
        x * (y + z) == x * y + x * z,
        x * 1real == x,
        x * 0real == 0real,
        (-1real) * x == -x,
{
    assert(x * (y * z) == (x * y) * z) by (nonlinear_arith);
    assert(x * y == y * x) by (nonlinear_arith);
    assert(x * (y + z) == x * y + x * z) by (nonlinear_arith);
    assert(x * 1real == x && x * 0real == 0real && (-1real) * x == -x) by (nonlinear_arith);
}

proof fn lemma_product_copies(values: Seq<real>, idx: Seq<u32>, p: u32, n: nat)
    ensures
        product_at(values, idx + copies(p, n)) == product_at(values, idx) * power(
            values[p as int],
            n,
        ),
    decreases n,
{
    if n == 0 {
        assert(idx + copies(p, 0) =~= idx);
        lemma_mul(product_at(values, idx), 1real, 1real);
    } else {
        let m: nat = (n - 1) as nat;
        lemma_product_copies(values, idx, p, m);
        assert((idx + copies(p, n)).drop_last() =~= idx + copies(p, m));
        assert((idx + copies(p, n)).last() == p);
        lemma_mul(product_at(values, idx), power(values[p as int], m), values[p as int]);
    }
}

proof fn lemma_scaled_value(f: Factor, c: real)
    ensures
        scaled(f, c) == factor_value(f) * c,
{
    lemma_mul(c, 1real, 1real);
    lemma_mul(1real, c, 1real);
}

pub(crate) proof fn lemma_branch_term(
    b: Branch,
    p: u32,
    t: Term<real>,
    sins: Seq<real>,
    coss: Seq<real>,
)
    ensures
        term_at(branch_term(b, p, t), sins, coss) == branch_weight(
            b,
            sins[p as int],
            coss[p as int],
        ) * term_at(t, sins, coss),
{
    let f: real = factor_value(b.factor);
    let x: real = product_at(sins, t.sin_idx);
    let y: real = product_at(coss, t.cos_idx);
    let u: real = power(sins[p as int], b.n_sin);
    let v: real = power(coss[p as int], b.n_cos);
    let c: real = t.coeff;
    lemma_scaled_value(b.factor, c);
    lemma_product_copies(sins, t.sin_idx, p, b.n_sin);
    lemma_product_copies(coss, t.cos_idx, p, b.n_cos);
    // (f c) ((x u) (y v)) == (f (u v)) (c (x y))
    lemma_mul(x * u, y, v);
    lemma_mul(x, u, y);
    lemma_mul(u, y, 1real);
    lemma_mul(x, y, u);
    lemma_mul(x * y, u, v);
    assert((x * u) * (y * v) == (x * y) * (u * v));
    let m: real = x * y;
    let w: real = u * v;
    lemma_mul(m, w, 1real);
    lemma_mul(f * c, w, m);
    lemma_mul(f, c, w);
    lemma_mul(c, w, 1real);
    lemma_mul(f, w, c);
    lemma_mul(f * w, c, m);
}

proof fn lemma_branch_value(
    b: Branch,
    p: u32,
    ts: Seq<Term<real>>,
    sins: Seq<real>,
    coss: Seq<real>,
)
    ensures
        terms_value(branch_terms(b, p, ts), sins, coss) == branch_weight(
            b,
            sins[p as int],
            coss[p as int],
        ) * terms_value(ts, sins, coss),
    decreases ts.len(),
{
    let w: real = branch_weight(b, sins[p as int], coss[p as int]);
    if ts.len() == 0 {
        lemma_mul(w, 0real, 0real);
    } else {
        let front: Seq<Term<real>> = ts.drop_last();
        lemma_branch_value(b, p, front, sins, coss);
        lemma_branch_term(b, p, ts.last(), sins, coss);
        assert(branch_terms(b, p, ts).drop_last() =~= branch_terms(b, p, front));
        lemma_mul(w, terms_value(front, sins, coss), term_at(ts.last(), sins, coss));
    }
}

/// The squared weights of the first `n` branches, added up.
pub open spec fn weights(bs: Seq<Branch>, s: real, c: real, n: nat) -> real
    decreases n,
{
    if n == 0 {
        0real
    } else {
        weights(bs, s, c, (n - 1) as nat) + square(branch_weight(bs[n - 1], s, c))
    }
}

proof fn lemma_squares_by_weights(
    bs: Seq<Branch>,
    p: u32,
    ts: Seq<Term<real>>,
    sins: Seq<real>,
    coss: Seq<real>,
    n: nat,
)
    requires
        n <= bs.len(),
    ensures
        squares(bs, p, ts, sins, coss, n) == weights(bs, sins[p as int], coss[p as int], n)
            * square(terms_value(ts, sins, coss)),
    decreases n,
{
    let v: real = terms_value(ts, sins, coss);
    if n == 0 {
        lemma_mul(square(v), 0real, 0real);
        lemma_mul(0real, square(v), 0real);
    } else {
        let b: Branch = bs[n - 1];
        let w: real = branch_weight(b, sins[p as int], coss[p as int]);
        let before: real = weights(bs, sins[p as int], coss[p as int], (n - 1) as nat);
        lemma_squares_by_weights(bs, p, ts, sins, coss, (n - 1) as nat);
        lemma_branch_value(b, p, ts, sins, coss);
        assert((w * v) * (w * v) == (w * w) * (v * v)) by (nonlinear_arith);
        lemma_mul(square(v), before, square(w));
        lemma_mul(square(v), before + square(w), 0real);
        lemma_mul(square(v), square(w), 0real);
        lemma_mul(before, square(v), 0real);
    }
}

// ---------------------------------------------------------------------
// The weights of a gate
// ---------------------------------------------------------------------

proof fn lemma_signed_square(f: real, x: real)
    requires
        f == 1real || f == -1real,
    ensures
        square(f * x) == square(x),
{
    assert((f * x) * (f * x) == (f * f) * (x * x)) by (nonlinear_arith);
    assert(f * f == 1real) by (nonlinear_arith)
        requires
            f == 1real || f == -1real,
    ;
    lemma_mul(x * x, 1real, 0real);
    lemma_mul(1real, x * x, 0real);
}

pub(crate) proof fn lemma_powers(x: real)
    ensures
        power(x, 0) == 1real,
        power(x, 1) == x,
        power(x, 2) == x * x,
{
    reveal_with_fuel(power, 3);
    lemma_mul(1real, x, 0real);
    lemma_mul(x, 1real, 0real);
}

/// The squared weight of a branch with a sign.
proof fn lemma_weight_square(b: Branch, s: real, c: real)
    requires
        factor_value(b.factor) == 1real || factor_value(b.factor) == -1real,
        b.n_sin <= 2,
        b.n_cos <= 2,
    ensures
        square(branch_weight(b, s, c)) == square(power(s, b.n_sin) * power(c, b.n_cos)),
{
    lemma_signed_square(factor_value(b.factor), power(s, b.n_sin) * power(c, b.n_cos));
}

proof fn lemma_one_weight(b: Branch, s: real, c: real)
    requires
        factor_value(b.factor) == 1real || factor_value(b.factor) == -1real,
        b.n_sin == 0,
        b.n_cos == 0,
    ensures
        weights(seq![b], s, c, 1) == 1real,
{
    let bs: Seq<Branch> = seq![b];
    lemma_weight_square(b, s, c);
    lemma_powers(s);
    lemma_powers(c);
    lemma_mul(1real, 1real, 0real);
    reveal_with_fuel(weights, 2);
    assert(bs[0] == b);
}

proof fn lemma_two_weights(b0: Branch, b1: Branch, s: real, c: real)
    requires
        s * s + c * c == 1real,
        factor_value(b0.factor) == 1real || factor_value(b0.factor) == -1real,
        factor_value(b1.factor) == 1real || factor_value(b1.factor) == -1real,
        b0.n_sin == 0,
        b0.n_cos == 1,
        b1.n_sin == 1,
        b1.n_cos == 0,
    ensures
        weights(seq![b0, b1], s, c, 2) == 1real,
{
    let bs: Seq<Branch> = seq![b0, b1];
    lemma_weight_square(b0, s, c);
    lemma_weight_square(b1, s, c);
    lemma_powers(s);
    lemma_powers(c);
    lemma_mul(1real, c, 0real);
    lemma_mul(c, 1real, 0real);
    lemma_mul(s, 1real, 0real);
    reveal_with_fuel(weights, 3);
    assert(bs[0] == b0 && bs[1] == b1);
}

proof fn lemma_four_weights(b0: Branch, b1: Branch, b2: Branch, b3: Branch, s: real, c: real)
    requires
        s * s + c * c == 1real,
        factor_value(b0.factor) == 1real || factor_value(b0.factor) == -1real,
        factor_value(b1.factor) == 1real || factor_value(b1.factor) == -1real,
        factor_value(b2.factor) == 1real || factor_value(b2.factor) == -1real,
        factor_value(b3.factor) == 1real || factor_value(b3.factor) == -1real,
        b0.n_sin == 0,
        b0.n_cos == 2,
        b1.n_sin == 1,
        b1.n_cos == 1,
        b2.n_sin == 2,
        b2.n_cos == 0,
        b3.n_sin == 1,
        b3.n_cos == 1,
    ensures
        weights(seq![b0, b1, b2, b3], s, c, 4) == 1real,
{
    let bs: Seq<Branch> = seq![b0, b1, b2, b3];
    let x: real = s * s;
    let y: real = c * c;
    lemma_weight_square(b0, s, c);
    lemma_weight_square(b1, s, c);
    lemma_weight_square(b2, s, c);
    lemma_weight_square(b3, s, c);
    lemma_powers(s);
    lemma_powers(c);
    lemma_mul(1real, y, 0real);
    lemma_mul(y, 1real, 0real);
    lemma_mul(x, 1real, 0real);
    assert((s * c) * (s * c) == (s * s) * (c * c)) by (nonlinear_arith);
    assert(y * y + x * y + x * x + x * y == (x + y) * (x + y)) by (nonlinear_arith);
    lemma_mul(1real, 1real, 0real);
    reveal_with_fuel(weights, 5);
    assert(bs[0] == b0 && bs[1] == b1 && bs[2] == b2 && bs[3] == b3);
}

/// Two phases of one over the square root of two.
proof fn lemma_two_phases(b0: Branch, b1: Branch, s: real, c: real)
    requires
        is_inv_sqrt2(real::spec_inv_sqrt2()),
        b0.factor is Phase,
        b1.factor is Phase,
        b0.n_sin == 0,
        b0.n_cos == 0,
        b1.n_sin == 0,
        b1.n_cos == 0,
    ensures
        weights(seq![b0, b1], s, c, 2) == 1real,
{
    let bs: Seq<Branch> = seq![b0, b1];
    let h: real = real::spec_inv_sqrt2();
    lemma_powers(s);
    lemma_powers(c);
    lemma_mul(1real, 1real, 0real);
    lemma_mul(h, 1real, 0real);
    lemma_mul(-h, 1real, 0real);
    assert((-h) * (-h) == h * h) by (nonlinear_arith);
    reveal_with_fuel(weights, 3);
    assert(bs[0] == b0 && bs[1] == b1);
}

proof fn lemma_signs()
    ensures
        factor_value(Factor::One) == 1real,
        factor_value(Factor::Minus) == -1real,
        factor_value(Factor::Sign(1)) == 1real,
        factor_value(Factor::Sign(-1i8)) == -1real,
{
}

proof fn lemma_controlled_rotation_weights(
    w: Seq<u8>,
    control: u32,
    target: u32,
    axis: u8,
    code: u8,
    s: real,
    c: real,
)
    requires
        s * s + c * c == 1real,
    ensures
        ({
            let bs = controlled_rotation_branches(
                w,
                control,
                target,
                rules::controlled_turned_code(axis, code),
            );
            weights(bs, s, c, bs.len()) == 1real
        }),
{
    let out: Option<Seq<CRBranch>> = rules::controlled_turned_code(axis, code);
    let bs: Seq<Branch> = controlled_rotation_branches(w, control, target, out);
    lemma_signs();
    match out {
        None => {
            lemma_one_weight(bs[0], s, c);
            assert(bs =~= seq![bs[0]]);
        },
        Some(list) => {
            if list.len() == 2 {
                lemma_two_weights(bs[0], bs[1], s, c);
                assert(bs =~= seq![bs[0], bs[1]]);
            } else {
                lemma_four_weights(bs[0], bs[1], bs[2], bs[3], s, c);
                assert(bs =~= seq![bs[0], bs[1], bs[2], bs[3]]);
            }
        },
    }
}

#[verifier::rlimit(50)]
proof fn lemma_weights(g: Gate, w: Seq<u8>, s: real, c: real)
    requires
        s * s + c * c == 1real,
        g.kind == rules::T ==> is_inv_sqrt2(real::spec_inv_sqrt2()),
    ensures
        weights(branches(g, w), s, c, branches(g, w).len()) == 1real,
{
    let bs: Seq<Branch> = branches(g, w);
    let second: u32 = second_wire(g);
    let code: u8 = pair_code(w, g.wire0, second);
    lemma_signs();
    match g.kind {
        rules::RX | rules::RY | rules::RZ => {
            if bs.len() == 1 {
                lemma_one_weight(bs[0], s, c);
                assert(bs =~= seq![bs[0]]);
            } else {
                lemma_two_weights(bs[0], bs[1], s, c);
                assert(bs =~= seq![bs[0], bs[1]]);
            }
        },
        rules::T => {
            if bs.len() == 1 {
                lemma_one_weight(bs[0], s, c);
                assert(bs =~= seq![bs[0]]);
            } else {
                lemma_two_phases(bs[0], bs[1], s, c);
                assert(bs =~= seq![bs[0], bs[1]]);
            }
        },
        rules::H | rules::S | rules::SX | rules::SWAP | rules::CNOT | rules::CY | rules::CZ => {
            lemma_one_weight(bs[0], s, c);
            assert(bs =~= seq![bs[0]]);
        },
        rules::CRX => lemma_controlled_rotation_weights(
            w,
            g.wire0,
            second,
            rules::AXIS_X,
            code,
            s,
            c,
        ),
        rules::CRY => lemma_controlled_rotation_weights(
            w,
            g.wire0,
            second,
            rules::AXIS_Y,
            code,
            s,
            c,
        ),
        _ => lemma_controlled_rotation_weights(w, g.wire0, second, rules::AXIS_Z, code, s, c),
    }
}

/// A gate neither gains nor loses weight: the squared values of its branches add up to
/// the squared value of the terms it acts on, where the squares of sine and cosine of
/// its angle add up to one.
pub proof fn lemma_gate_keeps_norm(
    g: Gate,
    w: Seq<u8>,
    ts: Seq<Term<real>>,
    sins: Seq<real>,
    coss: Seq<real>,
)
    requires
        square(sins[param_index(g) as int]) + square(coss[param_index(g) as int]) == 1real,
        g.kind == rules::T ==> is_inv_sqrt2(real::spec_inv_sqrt2()),
    ensures
        squares(branches(g, w), param_index(g), ts, sins, coss, branches(g, w).len()) == square(
            terms_value(ts, sins, coss),
        ),
{
    let p: u32 = param_index(g);
    let bs: Seq<Branch> = branches(g, w);
    lemma_weights(g, w, sins[p as int], coss[p as int]);
    lemma_squares_by_weights(bs, p, ts, sins, coss, bs.len());
    let v: real = square(terms_value(ts, sins, coss));
    lemma_mul(v, 1real, 0real);
    lemma_mul(1real, v, 0real);
}

// ---------------------------------------------------------------------
// Branches and words
// ---------------------------------------------------------------------

/// Whether no two branches go to the same word.
pub open spec fn words_differ(bs: Seq<Branch>) -> bool {
    forall|i: int, j: int|
        0 <= i < j < bs.len() ==> (#[trigger] bs[i]).word != (#[trigger] bs[j]).word
}

#[verifier::rlimit(50)]
proof fn lemma_controlled_rotation_words_differ(
    w: Seq<u8>,
    control: u32,
    target: u32,
    axis: u8,
    code: u8,
)
    requires
        control < w.len(),
        target < w.len(),
        control != target,
        axis == rules::AXIS_X || axis == rules::AXIS_Y || axis == rules::AXIS_Z,
    ensures
        words_differ(
            controlled_rotation_branches(
                w,
                control,
                target,
                rules::controlled_turned_code(axis, code),
            ),
        ),
{
    let out: Option<Seq<CRBranch>> = rules::controlled_turned_code(axis, code);
    let bs: Seq<Branch> = controlled_rotation_branches(w, control, target, out);
    if let Some(list) = out {
        assert forall|i: int, j: int| 0 <= i < j < bs.len() implies (#[trigger] bs[i]).word
            != (#[trigger] bs[j]).word by {
            assert(bs[i] == controlled_rotation_branch(w, control, target, list[i]));
            assert(bs[j] == controlled_rotation_branch(w, control, target, list[j]));
            assert(bs[i].word[control as int] == list[i].0 % 4);
            assert(bs[j].word[control as int] == list[j].0 % 4);
            assert(bs[i].word[target as int] == list[i].1 % 4);
            assert(bs[j].word[target as int] == list[j].1 % 4);
            assert(list[i].0 % 4 != list[j].0 % 4 || list[i].1 % 4 != list[j].1 % 4);
        }
    }
}

/// The branches of a gate go to different words.
#[verifier::rlimit(50)]
pub proof fn lemma_branch_words_differ(g: Gate, w: Seq<u8>)
    requires
        is_proper(g, w.len() as int),
        is_word(w),
        is_two_qubit(g.kind) ==> g.wire0 != second_wire(g),
    ensures
        words_differ(branches(g, w)),
{
    let bs: Seq<Branch> = branches(g, w);
    let l: u8 = w[g.wire0 as int];
    let second: u32 = second_wire(g);
    let code: u8 = pair_code(w, g.wire0, second);
    assert(l < 4);
    match g.kind {
        rules::RX | rules::RY | rules::RZ | rules::T => {
            if bs.len() == 2 {
                assert(bs[0].word[g.wire0 as int] == l);
                assert(bs[1].word[g.wire0 as int] != l);
            }
        },
        rules::CRX => lemma_controlled_rotation_words_differ(
            w,
            g.wire0,
            second,
            rules::AXIS_X,
            code,
        ),
        rules::CRY => lemma_controlled_rotation_words_differ(
            w,
            g.wire0,
            second,
            rules::AXIS_Y,
            code,
        ),
        rules::CRZ => lemma_controlled_rotation_words_differ(
            w,
            g.wire0,
            second,
            rules::AXIS_Z,
            code,
        ),
        _ => {},
    }
}

/// Branches to different words stay apart: each word holds the terms of its branch.
pub proof fn lemma_branches_stay_apart<S: Arith>(bs: Seq<Branch>, p: u32, ts: Seq<Term<S>>)
    requires
        words_differ(bs),
    ensures
        forall|k: int|
            0 <= k < bs.len() ==> with_branches(
                Map::<Seq<u8>, Seq<Term<S>>>::empty(),
                bs,
                p,
                ts,
            ).contains_key((#[trigger] bs[k]).word) && with_branches(
                Map::<Seq<u8>, Seq<Term<S>>>::empty(),
                bs,
                p,
                ts,
            )[bs[k].word] == branch_terms(bs[k], p, ts),
        forall|v: Seq<u8>| #[trigger]
            with_branches(Map::<Seq<u8>, Seq<Term<S>>>::empty(), bs, p, ts).contains_key(v)
                ==> exists|k: int| 0 <= k < bs.len() && (#[trigger] bs[k]).word == v,
    decreases bs.len(),
{
    let none: Map<Seq<u8>, Seq<Term<S>>> = Map::empty();
    if bs.len() > 0 {
        let front: Seq<Branch> = bs.drop_last();
        let b: Branch = bs.last();
        let before: Map<Seq<u8>, Seq<Term<S>>> = with_branches(none, front, p, ts);
        let after: Map<Seq<u8>, Seq<Term<S>>> = with_branches(none, bs, p, ts);
        assert(words_differ(front)) by {
            assert forall|i: int, j: int| 0 <= i < j < front.len() implies (#[trigger] front[i]).word
                != (#[trigger] front[j]).word by {
                assert(front[i] == bs[i] && front[j] == bs[j]);
            }
        }
        lemma_branches_stay_apart(front, p, ts);
        assert(!before.contains_key(b.word)) by {
            if before.contains_key(b.word) {
                let k: int = choose|k: int| 0 <= k < front.len() && (#[trigger] front[k]).word
                    == b.word;
                assert(front[k] == bs[k]);
                assert(bs[k].word != bs[bs.len() - 1].word);
            }
        }
        assert(terms_at(before, b.word) + branch_terms(b, p, ts) =~= branch_terms(b, p, ts));
        assert forall|k: int| 0 <= k < bs.len() implies after.contains_key((#[trigger] bs[k]).word)
            && after[bs[k].word] == branch_terms(bs[k], p, ts) by {
            if k < bs.len() - 1 {
                assert(front[k] == bs[k]);
                assert(bs[k].word != bs[bs.len() - 1].word);
            }
        }
        assert forall|v: Seq<u8>| #[trigger] after.contains_key(v) implies exists|k: int|
            0 <= k < bs.len() && (#[trigger] bs[k]).word == v by {
            if v == b.word {
                assert(bs[bs.len() - 1].word == v);
            } else {
                let k: int = choose|k: int| 0 <= k < front.len() && (#[trigger] front[k]).word == v;
                assert(bs[k].word == v);
            }
        }
    }
}

} // verus!
