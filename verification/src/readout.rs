//! From a result to its evaluator: an expression that writes down the terms of a result
//! has their value, and so that of the observable.

use vstd::prelude::*;

use crate::calculus::{lemma_value, product_of, sum_of_terms};
use crate::conjugation::{agree, left_all, right_all};
use crate::evaluator::{factor_table, value, Expression};
use crate::model::{expectation, propagated, Entry, Gate, Settings, Term};
use crate::norm::{lemma_mul, product_at, terms_value};
use crate::observable::{
    all_own_wires, are_angles, circuit_turns, element, lemma_result_is_expectation_value,
    lemma_same_terms_value, zero_state_value,
};
use crate::pruning::{all_proper, all_words, truncates_nothing};
use crate::reorder::{
    lemma_occurrences_add, lemma_occurrences_push, lemma_same_by_occurrences, lemma_same_contains,
    lemma_same_len, occurrences, same_items,
};
use crate::scalar::{is_inv_sqrt2, Arith};
use crate::truncation::has_t;
use crate::unitary::Angles;

verus! {

/// The factor of the cosine of the angle `k`, among `p` parameters.
pub open spec fn cosine_factor(p: nat, k: u32) -> u32 {
    (p + 1 + k) as u32
}

/// The factors of a term, among `p` parameters: the sine of the angle `k` is `k`, its
/// cosine is `p + 1 + k`.
pub open spec fn factors_of<S>(t: Term<S>, p: nat) -> Seq<u32> {
    t.sin_idx + t.cos_idx.map_values(|k: u32| cosine_factor(p, k))
}

/// Whether the angles of a term are among `p` parameters.
pub open spec fn has_angles<S>(t: Term<S>, p: nat) -> bool {
    &&& forall|i: int| 0 <= i < t.sin_idx.len() ==> #[trigger] t.sin_idx[i] < p
    &&& forall|i: int| 0 <= i < t.cos_idx.len() ==> #[trigger] t.cos_idx[i] < p
}

/// A run without the factor that stands for one.
pub open spec fn proper_factors(run: Seq<u32>, p: nat) -> Seq<u32> {
    run.filter(|k: u32| k != p)
}

/// Whether an expression writes down a list of terms: a coefficient and a run for each,
/// with its factors in whatever order. The factor that stands for one may stand anywhere.
pub open spec fn writes<S>(e: Expression<S>, ts: Seq<Term<S>>) -> bool {
    &&& e.coeffs.len() == ts.len()
    &&& e.runs.len() == ts.len()
    &&& 2 * e.num_params <= u32::MAX
    &&& forall|i: int|
        0 <= i < ts.len() ==> {
            &&& has_angles(#[trigger] ts[i], e.num_params)
            &&& e.coeffs[i] == ts[i].coeff
            &&& same_items(proper_factors(e.runs[i], e.num_params), factors_of(ts[i], e.num_params))
        }
}

proof fn lemma_product_add(table: Seq<real>, a: Seq<u32>, b: Seq<u32>)
    ensures
        product_of(table, a + b) == product_of(table, a) * product_of(table, b),
    decreases b.len(),
{
    let x: real = product_of(table, a);
    if b.len() == 0 {
        assert(a + b =~= a);
        lemma_mul(x, 1real, 0real);
    } else {
        assert((a + b).drop_last() =~= a + b.drop_last());
        lemma_product_add(table, a, b.drop_last());
        lemma_mul(x, product_of(table, b.drop_last()), table[b.last() as int]);
    }
}

/// The order of factors is of no account to their product.
proof fn lemma_same_product(table: Seq<real>, a: Seq<u32>, b: Seq<u32>)
    requires
        same_items(a, b),
    ensures
        product_of(table, a) == product_of(table, b),
    decreases a.len(),
{
    lemma_same_len(a, b);
    if a.len() > 0 {
        let k: u32 = a.last();
        let front: Seq<u32> = a.drop_last();
        assert(a =~= front.push(k));
        assert(a[a.len() - 1] == k);
        lemma_same_contains(a, b, k);
        let j: int = choose|j: int| 0 <= j < b.len() && b[j] == k;
        let before: Seq<u32> = b.take(j);
        let after: Seq<u32> = b.skip(j + 1);
        assert(b =~= before.push(k) + after);
        assert forall|c: u32| occurrences(front, c) == #[trigger] occurrences(before + after, c) by {
            lemma_occurrences_push(front, k, c);
            lemma_occurrences_add(before, after, c);
            lemma_occurrences_add(before.push(k), after, c);
            lemma_occurrences_push(before, k, c);
        }
        lemma_same_by_occurrences(front, before + after);
        lemma_same_product(table, front, before + after);
        lemma_product_add(table, before, after);
        lemma_product_add(table, before.push(k), after);
        assert(before.push(k).drop_last() =~= before);
        let (x, y, z): (real, real, real) = (
            product_of(table, before),
            product_of(table, after),
            table[k as int],
        );
        assert((x * y) * z == (x * z) * y) by (nonlinear_arith);
    }
}

/// Factors of one can be left out.
proof fn lemma_proper_product(table: Seq<real>, run: Seq<u32>, p: nat)
    requires
        table[p as int] == 1real,
    ensures
        product_of(table, proper_factors(run, p)) == product_of(table, run),
    decreases run.len(),
{
    reveal(Seq::filter);
    if run.len() > 0 {
        let front: Seq<u32> = run.drop_last();
        lemma_proper_product(table, front, p);
        lemma_mul(product_of(table, front), 1real, 0real);
        if run.last() != p {
            assert(proper_factors(run, p).drop_last() =~= proper_factors(front, p));
        }
    }
}

proof fn lemma_sines(sins: Seq<real>, coss: Seq<real>, idx: Seq<u32>)
    requires
        forall|i: int| 0 <= i < idx.len() ==> #[trigger] idx[i] < sins.len(),
    ensures
        product_of(factor_table(sins, coss), idx) == product_at(sins, idx),
    decreases idx.len(),
{
    if idx.len() > 0 {
        assert forall|i: int| 0 <= i < idx.drop_last().len() implies #[trigger] idx.drop_last()[i]
            < sins.len() by {
            assert(idx[i] < sins.len());
        }
        lemma_sines(sins, coss, idx.drop_last());
        assert(idx[idx.len() - 1] < sins.len());
    }
}

proof fn lemma_cosines(sins: Seq<real>, coss: Seq<real>, idx: Seq<u32>)
    requires
        sins.len() == coss.len(),
        2 * sins.len() <= u32::MAX,
        forall|i: int| 0 <= i < idx.len() ==> #[trigger] idx[i] < sins.len(),
    ensures
        product_of(
            factor_table(sins, coss),
            idx.map_values(|k: u32| cosine_factor(sins.len(), k)),
        ) == product_at(coss, idx),
    decreases idx.len(),
{
    let shift = |k: u32| cosine_factor(sins.len(), k);
    if idx.len() > 0 {
        let front: Seq<u32> = idx.drop_last();
        assert forall|i: int| 0 <= i < front.len() implies #[trigger] front[i] < sins.len() by {
            assert(idx[i] < sins.len());
        }
        lemma_cosines(sins, coss, front);
        assert(idx[idx.len() - 1] < sins.len());
        assert(idx.map_values(shift).drop_last() =~= front.map_values(shift));
        assert(idx.map_values(shift).last() == sins.len() + 1 + idx.last());
    }
}

proof fn lemma_written_terms(
    e: Expression<real>,
    ts: Seq<Term<real>>,
    sins: Seq<real>,
    coss: Seq<real>,
    n: nat,
)
    requires
        writes(e, ts),
        sins.len() == e.num_params,
        coss.len() == e.num_params,
        n <= ts.len(),
    ensures
        sum_of_terms(e, factor_table(sins, coss), n) == terms_value(ts.take(n as int), sins, coss),
    decreases n,
{
    if n > 0 {
        let p: nat = e.num_params;
        let t: Term<real> = ts[n - 1];
        let table: Seq<real> = factor_table(sins, coss);
        lemma_written_terms(e, ts, sins, coss, (n - 1) as nat);
        assert(ts.take(n as int).drop_last() =~= ts.take(n - 1));
        assert(has_angles(t, p));
        lemma_proper_product(table, e.runs[n - 1], p);
        lemma_same_product(table, proper_factors(e.runs[n - 1], p), factors_of(t, p));
        lemma_product_add(table, t.sin_idx, t.cos_idx.map_values(|k: u32| cosine_factor(p, k)));
        lemma_sines(sins, coss, t.sin_idx);
        lemma_cosines(sins, coss, t.cos_idx);
    }
}

/// An expression has the value of the terms that it writes down.
pub proof fn lemma_written_value(
    e: Expression<real>,
    ts: Seq<Term<real>>,
    sins: Seq<real>,
    coss: Seq<real>,
)
    requires
        writes(e, ts),
        sins.len() == e.num_params,
        coss.len() == e.num_params,
    ensures
        value(e, sins, coss) == terms_value(ts, sins, coss),
{
    lemma_value(e, sins, coss);
    lemma_written_terms(e, ts, sins, coss, ts.len());
    assert(ts.take(ts.len() as int) =~= ts);
}

/// From a circuit to a number. An expression that writes down the terms of a run without
/// truncations, in whatever order, has the expectation value of the observable in the
/// state that the circuit makes of the all-zero state: the value in the all-zero state
/// of any sum that is the observable conjugated by the circuit.
pub proof fn lemma_evaluation_is_expectation_value(
    st: Settings<real>,
    gates: Seq<Gate>,
    s: Seq<Entry<real>>,
    angles: Angles,
    n: nat,
    ts: Seq<Term<real>>,
    e: Expression<real>,
    conjugate: Seq<Entry<real>>,
)
    requires
        truncates_nothing(st),
        all_proper(gates, n),
        all_own_wires(gates),
        are_angles(gates, angles),
        has_t(gates) ==> is_inv_sqrt2(real::spec_inv_sqrt2()),
        all_words(s, n),
        same_items(ts, expectation(propagated(st, gates, 0, s))),
        writes(e, ts),
        angles.sins.len() == e.num_params,
        angles.coss.len() == e.num_params,
        all_words(conjugate, n),
        agree(
            n,
            right_all(
                element(s, angles.sins, angles.coss),
                circuit_turns(gates, 0, n, angles),
            ),
            left_all(
                circuit_turns(gates, 0, n, angles),
                element(conjugate, angles.sins, angles.coss),
            ),
        ),
    ensures
        value(e, angles.sins, angles.coss) == zero_state_value(
            conjugate,
            angles.sins,
            angles.coss,
        ),
{
    lemma_written_value(e, ts, angles.sins, angles.coss);
    lemma_same_terms_value(
        ts,
        expectation(propagated(st, gates, 0, s)),
        angles.sins,
        angles.coss,
    );
    lemma_result_is_expectation_value(st, gates, s, angles, n);
}

} // verus!
