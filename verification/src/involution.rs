//! Gates that undo themselves: H, CNOT, CY, CZ and SWAP, applied twice, give back a
//! word with its terms.

use vstd::prelude::*;

use crate::bits::{is_word, lemma_word_injective, word, PauliKey};
use crate::evolve::{lemma_terms_stay, with_branches};
use crate::model::{
    branch_term, branch_terms, clifford_branches, controlled_branches, copies, pair_code, put,
    sign_factor, swap_branches, terms_of, Branch, Term,
};
use crate::pauli_group::{
    image, is_axis, lemma_controlled_undoes_itself, lemma_hadamard_undoes_itself, pair_image,
};
use crate::pauli_map::{lemma_sum_at, sum_of, terms_at, Contents};
use crate::residue::{Residue, MODULUS};
use crate::rules::{controlled, controlled_code, hadamard};
use crate::scalar::Arith;

verus! {

/// Whether to negate the coefficients of terms twice gives them back.
pub open spec fn negates_back<S: Arith>(ts: Seq<Term<S>>) -> bool {
    forall|i: int|
        0 <= i < ts.len() ==> (#[trigger] ts[i]).coeff.spec_negate().spec_negate() == ts[i].coeff
}

/// The terms with their coefficients negated.
pub open spec fn negated<S: Arith>(ts: Seq<Term<S>>) -> Seq<Term<S>> {
    Seq::new(ts.len(), |i: int| Term { coeff: ts[i].coeff.spec_negate(), ..ts[i] })
}

/// The sum of one word.
pub open spec fn only<S>(w: Seq<u8>, ts: Seq<Term<S>>) -> Map<Seq<u8>, Seq<Term<S>>> {
    Map::empty().insert(w, ts)
}

/// What branches make of a word and its terms in an empty sum.
pub open spec fn made<S: Arith>(bs: Seq<Branch>, p: u32, ts: Seq<Term<S>>) -> Map<
    Seq<u8>,
    Seq<Term<S>>,
> {
    with_branches(Map::empty(), bs, p, ts)
}

/// A map whose sum is one word holds one key, that of the word.
pub proof fn lemma_only_key<S, const NW: usize>(m: Contents<S, NW>, k: PauliKey<NW>, ts: Seq<Term<S>>)
    requires
        sum_of(m) == only(word(k), ts),
    ensures
        m.dom() == set![k],
        terms_of(m[k]@) == ts,
{
    lemma_sum_at(m, k);
    assert(only(word(k), ts).contains_key(word(k)));
    assert forall|j: PauliKey<NW>| #[trigger] m.contains_key(j) implies j == k by {
        lemma_sum_at(m, j);
        assert(only(word(k), ts).contains_key(word(j)));
        lemma_word_injective(j, k);
    }
    assert(m.dom() =~= set![k]);
}

/// One branch with a constant sign makes one word, with the terms as they are or
/// negated.
proof fn lemma_signed_branch<S: Arith>(w: Seq<u8>, sign: i8, p: u32, ts: Seq<Term<S>>)
    ensures
        made(
            seq![Branch { word: w, factor: sign_factor(sign), n_sin: 0, n_cos: 0 }],
            p,
            ts,
        ) == only(w, if sign == 1 {
            ts
        } else {
            negated(ts)
        }),
{
    let b: Branch = Branch { word: w, factor: sign_factor(sign), n_sin: 0, n_cos: 0 };
    let bs: Seq<Branch> = seq![b];
    let none: Map<Seq<u8>, Seq<Term<S>>> = Map::empty();
    assert(bs.drop_last() =~= Seq::<Branch>::empty());
    assert(with_branches(none, bs.drop_last(), p, ts) == none);
    assert(terms_at(none, w) + branch_terms(b, p, ts) =~= branch_terms(b, p, ts));
    if sign == 1 {
        lemma_terms_stay(b, p, ts);
    } else {
        assert forall|i: int| 0 <= i < ts.len() implies branch_term(b, p, ts[i]) == negated(ts)[i] by {
            assert(ts[i].sin_idx + copies(p, 0) =~= ts[i].sin_idx);
            assert(ts[i].cos_idx + copies(p, 0) =~= ts[i].cos_idx);
        }
        assert(branch_terms(b, p, ts) =~= negated(ts));
    }
}

proof fn lemma_negated_twice<S: Arith>(ts: Seq<Term<S>>)
    requires
        negates_back(ts),
    ensures
        negated(negated(ts)) == ts,
{
    assert forall|i: int| 0 <= i < ts.len() implies negated(negated(ts))[i] == ts[i] by {
        assert(ts[i].coeff.spec_negate().spec_negate() == ts[i].coeff);
    }
    assert(negated(negated(ts)) =~= ts);
}

/// Real numbers negate back.
pub proof fn lemma_reals_negate_back(ts: Seq<Term<real>>)
    ensures
        negates_back(ts),
{
}

/// Residues below the modulus negate back.
pub proof fn lemma_residues_negate_back(ts: Seq<Term<Residue>>)
    requires
        forall|i: int| 0 <= i < ts.len() ==> (#[trigger] ts[i]).coeff.value < MODULUS,
    ensures
        negates_back(ts),
{
    assert forall|i: int| 0 <= i < ts.len() implies (
    #[trigger] ts[i]).coeff.spec_negate().spec_negate() == ts[i].coeff by {
        let v: int = ts[i].coeff.value as int;
        assert(v < MODULUS);
        let w: int = ts[i].coeff.spec_negate().value as int;
        assert(w == if v == 0 {
            0
        } else {
            MODULUS - v
        });
    }
}

/// Whether a gate that undoes itself was applied twice to terms: they are the same, or
/// negated twice, which is the same where coefficients negate back.
pub open spec fn is_undone<S: Arith>(
    sum: Map<Seq<u8>, Seq<Term<S>>>,
    w: Seq<u8>,
    ts: Seq<Term<S>>,
) -> bool {
    &&& sum == only(w, ts) || sum == only(w, negated(negated(ts)))
    &&& negates_back(ts) ==> sum == only(w, ts)
}

/// Whether the word `v` and the terms `us` come out of `w` and `ts` at a gate that undoes
/// itself: nothing else comes out, and the terms are the same or all negated.
pub open spec fn is_signed_image<S: Arith>(
    sum: Map<Seq<u8>, Seq<Term<S>>>,
    ts: Seq<Term<S>>,
    v: Seq<u8>,
    us: Seq<Term<S>>,
) -> bool {
    &&& sum == only(v, us)
    &&& us == ts || us == negated(ts)
}

/// The word that the Hadamard gate on `wire` makes of `w`, and its sign.
pub open spec fn hadamard_image(w: Seq<u8>, wire: u32) -> (Seq<u8>, i8) {
    let (l, sign) = image(w[wire as int], hadamard(w[wire as int]));
    (put(w, wire, l), sign)
}

/// The word that a controlled Pauli gate makes of `w`, and its sign.
pub open spec fn controlled_image(axis: u8, w: Seq<u8>, control: u32, target: u32) -> (Seq<u8>, i8) {
    let c = w[control as int];
    let t = w[target as int];
    let (c1, t1, sign) = pair_image(c, t, controlled(axis, c, t));
    (put(put(w, control, c1), target, t1), sign)
}

proof fn lemma_hadamard_makes<S: Arith>(w: Seq<u8>, wire: u32, p: u32, ts: Seq<Term<S>>)
    requires
        is_word(w),
        wire < w.len(),
    ensures
        made(clifford_branches(w, wire, hadamard(w[wire as int])), p, ts) == only(
            hadamard_image(w, wire).0,
            if hadamard_image(w, wire).1 == 1 {
                ts
            } else {
                negated(ts)
            },
        ),
{
    let (v, sign): (Seq<u8>, i8) = hadamard_image(w, wire);
    let b: Branch = Branch { word: v, factor: sign_factor(sign), n_sin: 0, n_cos: 0 };
    assert(w[wire as int] < 4);
    lemma_signed_branch(v, sign, p, ts);
    if hadamard(w[wire as int]) is None {
        assert(v =~= w);
    }
    assert(clifford_branches(w, wire, hadamard(w[wire as int])) =~= seq![b]);
}

/// The Hadamard gate, applied twice, gives back a word with its terms, which are the same
/// or negated twice.
pub proof fn lemma_hadamard_twice<S: Arith>(
    w: Seq<u8>,
    wire: u32,
    p: u32,
    q: u32,
    ts: Seq<Term<S>>,
) -> (r: (Seq<u8>, Seq<Term<S>>))
    requires
        is_word(w),
        wire < w.len(),
    ensures
        is_signed_image(
            made(clifford_branches(w, wire, hadamard(w[wire as int])), p, ts),
            ts,
            r.0,
            r.1,
        ),
        forall|i: int| 0 <= i < w.len() && i != wire ==> #[trigger] r.0[i] == w[i],
        is_undone(made(clifford_branches(r.0, wire, hadamard(r.0[wire as int])), q, r.1), w, ts),
{
    let (v, sign): (Seq<u8>, i8) = hadamard_image(w, wire);
    let us: Seq<Term<S>> = if sign == 1 {
        ts
    } else {
        negated(ts)
    };
    assert(w[wire as int] < 4);
    lemma_hadamard_undoes_itself(w[wire as int]);
    lemma_hadamard_makes(w, wire, p, ts);
    lemma_hadamard_makes(v, wire, q, us);
    assert(hadamard_image(v, wire).0 =~= w);
    if negates_back(ts) {
        lemma_negated_twice(ts);
    }
    (v, us)
}

proof fn lemma_controlled_makes<S: Arith>(
    axis: u8,
    w: Seq<u8>,
    control: u32,
    target: u32,
    p: u32,
    ts: Seq<Term<S>>,
)
    requires
        is_axis(axis),
        is_word(w),
        control < w.len(),
        target < w.len(),
        control != target,
    ensures
        is_word(controlled_image(axis, w, control, target).0),
        made(
            controlled_branches(
                w,
                control,
                target,
                controlled_code(axis, pair_code(w, control, target)),
            ),
            p,
            ts,
        ) == only(
            controlled_image(axis, w, control, target).0,
            if controlled_image(axis, w, control, target).1 == 1 {
                ts
            } else {
                negated(ts)
            },
        ),
{
    let c: u8 = w[control as int];
    let t: u8 = w[target as int];
    let code: u8 = pair_code(w, control, target);
    let (v, sign): (Seq<u8>, i8) = controlled_image(axis, w, control, target);
    let b: Branch = Branch { word: v, factor: sign_factor(sign), n_sin: 0, n_cos: 0 };
    assert(c < 4 && t < 4);
    assert(code / 4 == c && code % 4 == t && code < 16);
    lemma_signed_branch(v, sign, p, ts);
    if controlled(axis, c, t) is None {
        assert(v =~= w);
    }
    assert(controlled_branches(w, control, target, controlled_code(axis, code)) =~= seq![b]);
}

/// A controlled Pauli gate, applied twice, gives back a word with its terms, which are the
/// same or negated twice.
pub proof fn lemma_controlled_twice<S: Arith>(
    axis: u8,
    w: Seq<u8>,
    control: u32,
    target: u32,
    p: u32,
    q: u32,
    ts: Seq<Term<S>>,
) -> (r: (Seq<u8>, Seq<Term<S>>))
    requires
        is_axis(axis),
        is_word(w),
        control < w.len(),
        target < w.len(),
        control != target,
    ensures
        is_signed_image(
            made(
                controlled_branches(
                    w,
                    control,
                    target,
                    controlled_code(axis, pair_code(w, control, target)),
                ),
                p,
                ts,
            ),
            ts,
            r.0,
            r.1,
        ),
        forall|i: int|
            0 <= i < w.len() && i != control && i != target ==> #[trigger] r.0[i] == w[i],
        is_undone(
            made(
                controlled_branches(
                    r.0,
                    control,
                    target,
                    controlled_code(axis, pair_code(r.0, control, target)),
                ),
                q,
                r.1,
            ),
            w,
            ts,
        ),
{
    let c: u8 = w[control as int];
    let t: u8 = w[target as int];
    let (v, sign): (Seq<u8>, i8) = controlled_image(axis, w, control, target);
    let us: Seq<Term<S>> = if sign == 1 {
        ts
    } else {
        negated(ts)
    };
    assert(c < 4 && t < 4);
    lemma_controlled_undoes_itself(axis, c, t);
    lemma_controlled_makes(axis, w, control, target, p, ts);
    lemma_controlled_makes(axis, v, control, target, q, us);
    assert(v[control as int] == pair_image(c, t, controlled(axis, c, t)).0);
    assert(v[target as int] == pair_image(c, t, controlled(axis, c, t)).1);
    assert(controlled_image(axis, v, control, target).0 =~= w);
    if negates_back(ts) {
        lemma_negated_twice(ts);
    }
    (v, us)
}

/// SWAP, applied twice, gives back a word with its terms.
pub proof fn lemma_swap_twice<S: Arith>(
    w: Seq<u8>,
    a: u32,
    b: u32,
    p: u32,
    q: u32,
    ts: Seq<Term<S>>,
) -> (r: Seq<u8>)
    requires
        a < w.len(),
        b < w.len(),
    ensures
        made(swap_branches(w, a, b), p, ts) == only(r, ts),
        made(swap_branches(r, a, b), q, ts) == only(w, ts),
{
    let v: Seq<u8> = w.update(a as int, w[b as int]).update(b as int, w[a as int]);
    assert(v.update(a as int, v[b as int]).update(b as int, v[a as int]) =~= w);
    lemma_signed_branch(v, 1, p, ts);
    lemma_signed_branch(w, 1, q, ts);
    v
}

} // verus!
