//! The laws of the evaluator for every scalar type that computes exactly.
//!
//! A scalar type computes exactly where its numbers stand for real numbers, different
//! numbers for different ones, and its operations for those on the reals. What an
//! evaluator returns then stands for what `calculus` says.

use vstd::prelude::*;

use crate::calculus::{
    gradient, is_sound, lemma_exact_gradient, lemma_gradients_agree, lemma_place_fits,
    lemma_value_sum,
};
use crate::evaluator::{
    chain_product, chain_value_sum, copies_sum, exact_gradient, factor_table, factors_fit,
    fast_gradient, gathered, has_small, lane_product, lanes_product, log_derivative,
    product_without, scattered, slot, suffix_product, term_value, value, value_and_gradient,
    value_sum, with_factor, with_factors, with_terms, Expression,
};
use crate::scalar::{magnitude, Arith};

verus! {

/// Whether `val` shows that a scalar type computes exactly.
pub open spec fn is_exact<S: Arith>(val: spec_fn(S) -> real) -> bool {
    &&& val(S::spec_zero()) == 0real
    &&& val(S::spec_one()) == 1real
    &&& val(S::spec_empty_sum()) == 0real
    &&& forall|a: S, b: S| val(#[trigger] a.spec_plus(b)) == val(a) + val(b)
    &&& forall|a: S, b: S| val(#[trigger] a.spec_minus(b)) == val(a) - val(b)
    &&& forall|a: S, b: S| val(#[trigger] a.spec_times(b)) == val(a) * val(b)
    &&& forall|a: S, b: S| val(b) != 0real ==> val(#[trigger] a.spec_over(b)) == val(a) / val(b)
    &&& forall|a: S, b: S| #[trigger]
        a.spec_falls_below(b) <==> magnitude(val(a)) < val(b)
    &&& forall|a: S, b: S| #[trigger] val(a) == #[trigger] val(b) ==> a == b
}

/// The real numbers compute exactly.
pub proof fn lemma_reals_are_exact()
    ensures
        is_exact(|x: real| x),
{
}

/// The real numbers that a sequence stands for.
pub open spec fn values<S>(val: spec_fn(S) -> real, xs: Seq<S>) -> Seq<real> {
    Seq::new(xs.len(), |i: int| val(xs[i]))
}

/// The expression that an expression stands for.
pub open spec fn real_expression<S>(val: spec_fn(S) -> real, e: Expression<S>) -> Expression<real> {
    Expression {
        coeffs: values(val, e.coeffs),
        runs: e.runs,
        num_params: e.num_params,
        max_run: e.max_run,
        copies: e.copies,
        tol: val(e.tol),
    }
}

/// Sequences that stand for the same numbers are the same.
proof fn lemma_values_determine<S: Arith>(val: spec_fn(S) -> real, xs: Seq<S>, ys: Seq<S>)
    requires
        is_exact(val),
        values(val, xs) == values(val, ys),
    ensures
        xs == ys,
{
    assert(xs.len() == values(val, xs).len() == ys.len());
    assert forall|i: int| 0 <= i < xs.len() implies xs[i] == ys[i] by {
        assert(values(val, xs)[i] == val(xs[i]));
        assert(values(val, ys)[i] == val(ys[i]));
    }
    assert(xs =~= ys);
}

proof fn lemma_table<S: Arith>(val: spec_fn(S) -> real, sins: Seq<S>, coss: Seq<S>)
    requires
        is_exact(val),
    ensures
        values(val, factor_table(sins, coss)) == factor_table(
            values(val, sins),
            values(val, coss),
        ),
{
    assert(values(val, factor_table(sins, coss)) =~= factor_table(
        values(val, sins),
        values(val, coss),
    ));
}

/// Whether a run reads its factors from a table.
pub open spec fn reads<S>(table: Seq<S>, run: Seq<u32>) -> bool {
    forall|i: int| 0 <= i < run.len() ==> (#[trigger] run[i]) < table.len()
}

proof fn lemma_lane<S: Arith>(
    val: spec_fn(S) -> real,
    table: Seq<S>,
    run: Seq<u32>,
    lane: int,
    n: nat,
)
    requires
        is_exact(val),
        reads(table, run),
        0 <= lane < 4,
        4 * n <= run.len(),
    ensures
        val(lane_product(table, run, lane, n)) == lane_product(values(val, table), run, lane, n),
    decreases n,
{
    if n > 0 {
        lemma_lane(val, table, run, lane, (n - 1) as nat);
        assert(run[4 * (n - 1) + lane] < table.len());
    }
}

proof fn lemma_chain_value<S: Arith>(
    val: spec_fn(S) -> real,
    x: S,
    table: Seq<S>,
    run: Seq<u32>,
    from: int,
    to: int,
)
    requires
        is_exact(val),
        reads(table, run),
        0 <= from,
        to <= run.len(),
    ensures
        val(chain_product(x, table, run, from, to)) == chain_product(
            val(x),
            values(val, table),
            run,
            from,
            to,
        ),
    decreases to - from,
{
    if from < to {
        lemma_chain_value(val, x, table, run, from, to - 1);
        assert(run[to - 1] < table.len());
    }
}

proof fn lemma_lanes_value<S: Arith>(val: spec_fn(S) -> real, table: Seq<S>, run: Seq<u32>)
    requires
        is_exact(val),
        reads(table, run),
    ensures
        val(lanes_product(table, run)) == lanes_product(values(val, table), run),
{
    let n: nat = (run.len() / 4) as nat;
    lemma_lane(val, table, run, 0, n);
    lemma_lane(val, table, run, 1, n);
    lemma_lane(val, table, run, 2, n);
    lemma_lane(val, table, run, 3, n);
    lemma_chain_value(
        val,
        lane_product(table, run, 0, n),
        table,
        run,
        (4 * n) as int,
        run.len() as int,
    );
}

proof fn lemma_term_value<S: Arith>(
    val: spec_fn(S) -> real,
    e: Expression<S>,
    table: Seq<S>,
    t: int,
)
    requires
        is_exact(val),
        is_sound(e),
        table.len() == 2 * e.num_params + 1,
        0 <= t < e.coeffs.len(),
    ensures
        val(term_value(e, table, t)) == term_value(
            real_expression(val, e),
            values(val, table),
            t,
        ),
        reads(table, e.runs[t]),
{
    assert(factors_fit(e.runs[t], e.num_params));
    lemma_lanes_value(val, table, e.runs[t]);
}

proof fn lemma_sums<S: Arith>(
    val: spec_fn(S) -> real,
    start: S,
    e: Expression<S>,
    table: Seq<S>,
    n: nat,
)
    requires
        is_exact(val),
        is_sound(e),
        table.len() == 2 * e.num_params + 1,
        n <= e.coeffs.len(),
    ensures
        val(value_sum(start, e, table, n)) == value_sum(
            val(start),
            real_expression(val, e),
            values(val, table),
            n,
        ),
        val(chain_value_sum(start, e, table, n)) == chain_value_sum(
            val(start),
            real_expression(val, e),
            values(val, table),
            n,
        ),
    decreases n,
{
    if n > 0 {
        let run: Seq<u32> = e.runs[n - 1];
        lemma_sums(val, start, e, table, (n - 1) as nat);
        lemma_term_value(val, e, table, n - 1);
        lemma_chain_value(val, S::spec_one(), table, run, 0, run.len() as int);
    }
}

// ---------------------------------------------------------------------
// Logarithmic derivatives
// ---------------------------------------------------------------------

proof fn lemma_scattered_values<S: Arith>(
    val: spec_fn(S) -> real,
    acc: Seq<S>,
    run: Seq<u32>,
    term: S,
    width: nat,
    copies: nat,
    n: nat,
)
    requires
        is_exact(val),
        copies > 0,
        acc.len() == copies * width,
        forall|j: int| 0 <= j < run.len() ==> (#[trigger] run[j]) < width,
        n <= run.len(),
    ensures
        scattered(acc, run, term, width, copies, n).len() == acc.len(),
        values(val, scattered(acc, run, term, width, copies, n)) == scattered(
            values(val, acc),
            run,
            val(term),
            width,
            copies,
            n,
        ),
    decreases n,
{
    if n > 0 {
        let j: int = n - 1;
        lemma_scattered_values(val, acc, run, term, width, copies, (n - 1) as nat);
        let before: Seq<S> = scattered(acc, run, term, width, copies, (n - 1) as nat);
        let k: int = slot(run, width, copies, j);
        assert(run[j] < width);
        assert(0 * width == 0) by (nonlinear_arith);
        if j < run.len() - run.len() % copies {
            lemma_place_fits(width, copies, j % copies as int, run[j] as int);
        } else {
            lemma_place_fits(width, copies, 0, run[j] as int);
        }
        assert(0 <= k < before.len());
        assert(values(val, before.update(k, before[k].spec_plus(term))) =~= values(
            val,
            before,
        ).update(k, values(val, before)[k].spec_plus(val(term))));
    }
}

proof fn lemma_gathered_values<S: Arith>(
    val: spec_fn(S) -> real,
    e: Expression<S>,
    table: Seq<S>,
    n: nat,
)
    requires
        is_exact(val),
        is_sound(e),
        table.len() == 2 * e.num_params + 1,
        n <= e.coeffs.len(),
    ensures
        gathered(e, table, n).len() == e.copies * (2 * e.num_params + 1),
        values(val, gathered(e, table, n)) == gathered(
            real_expression(val, e),
            values(val, table),
            n,
        ),
    decreases n,
{
    let width: nat = 2 * e.num_params + 1;
    if n == 0 {
        assert(values(val, gathered(e, table, 0)) =~= gathered(
            real_expression(val, e),
            values(val, table),
            0,
        ));
    } else {
        let run: Seq<u32> = e.runs[n - 1];
        lemma_gathered_values(val, e, table, (n - 1) as nat);
        lemma_term_value(val, e, table, n - 1);
        assert(factors_fit(run, e.num_params));
        lemma_scattered_values(
            val,
            gathered(e, table, (n - 1) as nat),
            run,
            term_value(e, table, n - 1),
            width,
            e.copies,
            run.len(),
        );
    }
}

proof fn lemma_copies_value<S: Arith>(
    val: spec_fn(S) -> real,
    acc: Seq<S>,
    width: nat,
    copies: nat,
    k: int,
    n: nat,
)
    requires
        is_exact(val),
        acc.len() == copies * width,
        0 <= k < width,
        n <= copies,
    ensures
        val(copies_sum(acc, width, k, n)) == copies_sum(values(val, acc), width, k, n),
    decreases n,
{
    if n > 0 {
        lemma_copies_value(val, acc, width, copies, k, (n - 1) as nat);
        lemma_place_fits(width, copies, n - 1, k);
    }
}

proof fn lemma_fast_values<S: Arith>(
    val: spec_fn(S) -> real,
    e: Expression<S>,
    sins: Seq<S>,
    coss: Seq<S>,
)
    requires
        is_exact(val),
        is_sound(e),
        sins.len() == e.num_params,
        coss.len() == e.num_params,
        forall|k: int| 0 <= k < e.num_params ==> #[trigger] sins[k] != S::spec_zero(),
        forall|k: int| 0 <= k < e.num_params ==> #[trigger] coss[k] != S::spec_zero(),
    ensures
        values(val, fast_gradient(e, sins, coss)) == fast_gradient(
            real_expression(val, e),
            values(val, sins),
            values(val, coss),
        ),
{
    let table: Seq<S> = factor_table(sins, coss);
    let acc: Seq<S> = gathered(e, table, e.coeffs.len());
    let width: nat = 2 * e.num_params + 1;
    lemma_table(val, sins, coss);
    lemma_gathered_values(val, e, table, e.coeffs.len());
    assert forall|k: int| 0 <= k < e.num_params implies val(log_derivative(e, sins, coss, k))
        == log_derivative(real_expression(val, e), values(val, sins), values(val, coss), k) by {
        assert(sins[k] != S::spec_zero() && coss[k] != S::spec_zero());
        assert(val(sins[k]) != val(S::spec_zero()));
        assert(val(coss[k]) != val(S::spec_zero()));
        lemma_copies_value(val, acc, width, e.copies, k, e.copies);
        lemma_copies_value(val, acc, width, e.copies, e.num_params + 1 + k, e.copies);
    }
    assert(values(val, fast_gradient(e, sins, coss)) =~= fast_gradient(
        real_expression(val, e),
        values(val, sins),
        values(val, coss),
    ));
}

// ---------------------------------------------------------------------
// Partial products
// ---------------------------------------------------------------------

proof fn lemma_suffix_value<S: Arith>(
    val: spec_fn(S) -> real,
    table: Seq<S>,
    run: Seq<u32>,
    j: int,
)
    requires
        is_exact(val),
        reads(table, run),
        0 <= j <= run.len(),
    ensures
        val(suffix_product(table, run, j)) == suffix_product(values(val, table), run, j),
    decreases run.len() - j,
{
    if j < run.len() {
        lemma_suffix_value(val, table, run, j + 1);
        assert(run[j] < table.len());
    }
}

proof fn lemma_factors_values<S: Arith>(
    val: spec_fn(S) -> real,
    grad: Seq<S>,
    sins: Seq<S>,
    coss: Seq<S>,
    c: S,
    run: Seq<u32>,
    j: int,
)
    requires
        is_exact(val),
        sins.len() == coss.len() == grad.len(),
        factors_fit(run, sins.len()),
        0 <= j <= run.len(),
    ensures
        with_factors(grad, sins, coss, c, run, j).len() == grad.len(),
        values(val, with_factors(grad, sins, coss, c, run, j)) == with_factors(
            values(val, grad),
            values(val, sins),
            values(val, coss),
            val(c),
            run,
            j,
        ),
    decreases run.len() - j,
{
    if j < run.len() {
        let table: Seq<S> = factor_table(sins, coss);
        let before: Seq<S> = with_factors(grad, sins, coss, c, run, j + 1);
        let rest: S = product_without(c, table, run, j);
        let entry: u32 = run[j];
        lemma_factors_values(val, grad, sins, coss, c, run, j + 1);
        assert(reads(table, run));
        lemma_table(val, sins, coss);
        lemma_chain_value(val, S::spec_one(), table, run, 0, j);
        lemma_suffix_value(val, table, run, j + 1);
        assert(val(rest) == product_without(val(c), values(val, table), run, j));
        assert(entry < 2 * sins.len() + 1);
        assert(values(val, with_factor(before, sins, coss, entry, rest)) =~= with_factor(
            values(val, before),
            values(val, sins),
            values(val, coss),
            entry,
            val(rest),
        ));
    }
}

proof fn lemma_terms_values<S: Arith>(
    val: spec_fn(S) -> real,
    grad: Seq<S>,
    e: Expression<S>,
    sins: Seq<S>,
    coss: Seq<S>,
    n: nat,
)
    requires
        is_exact(val),
        is_sound(e),
        sins.len() == e.num_params,
        coss.len() == e.num_params,
        grad.len() == e.num_params,
        n <= e.coeffs.len(),
    ensures
        with_terms(grad, e, sins, coss, n).len() == e.num_params,
        values(val, with_terms(grad, e, sins, coss, n)) == with_terms(
            values(val, grad),
            real_expression(val, e),
            values(val, sins),
            values(val, coss),
            n,
        ),
    decreases n,
{
    if n > 0 {
        lemma_terms_values(val, grad, e, sins, coss, (n - 1) as nat);
        assert(factors_fit(e.runs[n - 1], e.num_params));
        lemma_factors_values(
            val,
            with_terms(grad, e, sins, coss, (n - 1) as nat),
            sins,
            coss,
            e.coeffs[n - 1],
            e.runs[n - 1],
            0,
        );
    }
}

proof fn lemma_exact_values<S: Arith>(
    val: spec_fn(S) -> real,
    e: Expression<S>,
    sins: Seq<S>,
    coss: Seq<S>,
)
    requires
        is_exact(val),
        is_sound(e),
        sins.len() == e.num_params,
        coss.len() == e.num_params,
    ensures
        values(val, exact_gradient(e, sins, coss)) == exact_gradient(
            real_expression(val, e),
            values(val, sins),
            values(val, coss),
        ),
{
    let start: Seq<S> = Seq::new(e.num_params, |k: int| S::spec_zero());
    lemma_terms_values(val, start, e, sins, coss, e.coeffs.len());
    assert(values(val, start) =~= Seq::new(e.num_params, |k: int| real::spec_zero()));
}

// ---------------------------------------------------------------------
// The laws
// ---------------------------------------------------------------------

proof fn lemma_sound_reals<S: Arith>(val: spec_fn(S) -> real, e: Expression<S>)
    requires
        is_sound(e),
    ensures
        is_sound(real_expression(val, e)),
{
}

/// All ways to the value agree: that of an evaluation, that beside the gradient by
/// logarithmic derivatives, and that beside the gradient by partial products.
pub proof fn lemma_values_agree<S: Arith>(
    val: spec_fn(S) -> real,
    e: Expression<S>,
    sins: Seq<S>,
    coss: Seq<S>,
)
    requires
        is_exact(val),
        is_sound(e),
        sins.len() == e.num_params,
        coss.len() == e.num_params,
    ensures
        value_sum(S::spec_zero(), e, factor_table(sins, coss), e.coeffs.len()) == value(
            e,
            sins,
            coss,
        ),
        chain_value_sum(S::spec_zero(), e, factor_table(sins, coss), e.coeffs.len()) == value(
            e,
            sins,
            coss,
        ),
        val(value(e, sins, coss)) == value(
            real_expression(val, e),
            values(val, sins),
            values(val, coss),
        ),
{
    let table: Seq<S> = factor_table(sins, coss);
    let n: nat = e.coeffs.len();
    let zero: S = S::spec_zero();
    lemma_table(val, sins, coss);
    lemma_sums(val, zero, e, table, n);
    lemma_sums(val, S::spec_empty_sum(), e, table, n);
    lemma_value_sum(real_expression(val, e), values(val, table), n);
    assert(val(value_sum(zero, e, table, n)) == val(value(e, sins, coss)));
    assert(val(chain_value_sum(zero, e, table, n)) == val(value(e, sins, coss)));
}

/// The two ways to the gradient agree where no sine and no cosine is zero, whatever the
/// number of copies of the accumulator.
pub proof fn lemma_both_gradients_agree<S: Arith>(
    val: spec_fn(S) -> real,
    e: Expression<S>,
    sins: Seq<S>,
    coss: Seq<S>,
)
    requires
        is_exact(val),
        is_sound(e),
        sins.len() == e.num_params,
        coss.len() == e.num_params,
        forall|k: int| 0 <= k < e.num_params ==> #[trigger] sins[k] != S::spec_zero(),
        forall|k: int| 0 <= k < e.num_params ==> #[trigger] coss[k] != S::spec_zero(),
    ensures
        fast_gradient(e, sins, coss) == exact_gradient(e, sins, coss),
{
    let rs: Seq<real> = values(val, sins);
    let rc: Seq<real> = values(val, coss);
    lemma_sound_reals(val, e);
    lemma_fast_values(val, e, sins, coss);
    lemma_exact_values(val, e, sins, coss);
    assert forall|k: int| 0 <= k < e.num_params implies #[trigger] rs[k] != 0real by {
        assert(sins[k] != S::spec_zero());
        assert(val(sins[k]) != val(S::spec_zero()));
    }
    assert forall|k: int| 0 <= k < e.num_params implies #[trigger] rc[k] != 0real by {
        assert(coss[k] != S::spec_zero());
        assert(val(coss[k]) != val(S::spec_zero()));
    }
    lemma_gradients_agree(real_expression(val, e), rs, rc);
    lemma_values_determine(val, fast_gradient(e, sins, coss), exact_gradient(e, sins, coss));
}

/// With a tolerance above zero, value and gradient do not depend on the way that is
/// taken: they are the value of an evaluation and the gradient by partial products,
/// which stands for the gradient.
pub proof fn lemma_way_does_not_matter<S: Arith>(
    val: spec_fn(S) -> real,
    e: Expression<S>,
    sins: Seq<S>,
    coss: Seq<S>,
)
    requires
        is_exact(val),
        is_sound(e),
        sins.len() == e.num_params,
        coss.len() == e.num_params,
        val(e.tol) > 0real,
    ensures
        value_and_gradient(e, sins, coss) == (
            value(e, sins, coss),
            exact_gradient(e, sins, coss),
        ),
        values(val, exact_gradient(e, sins, coss)) == gradient(
            real_expression(val, e),
            values(val, sins),
            values(val, coss),
        ),
{
    lemma_values_agree(val, e, sins, coss);
    lemma_sound_reals(val, e);
    lemma_exact_values(val, e, sins, coss);
    lemma_exact_gradient(real_expression(val, e), values(val, sins), values(val, coss));
    if !has_small(sins, e.tol) && !has_small(coss, e.tol) {
        assert forall|k: int| 0 <= k < e.num_params implies #[trigger] sins[k]
            != S::spec_zero() by {
            assert(!sins[k].spec_falls_below(e.tol));
        }
        assert forall|k: int| 0 <= k < e.num_params implies #[trigger] coss[k]
            != S::spec_zero() by {
            assert(!coss[k].spec_falls_below(e.tol));
        }
        lemma_both_gradients_agree(val, e, sins, coss);
    }
}

} // verus!
