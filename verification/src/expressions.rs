//! What an expression is made of and what it is worth, written out: its runs laid end to
//! end, and its value term by term and factor by factor.

use vstd::prelude::*;

use crate::calculus::{lemma_place_fits, lemma_value, product_of, sum_of_terms};
use crate::evaluator::{
    counts_sum, factor_table, factors_fit, lemma_counts_grow, runs_of, scattered, slot, value,
    Expression,
};
use crate::norm::lemma_mul;
use crate::scalar::Arith;

verus! {

// ---------------------------------------------------------------------
// Runs
// ---------------------------------------------------------------------

proof fn lemma_first_runs(idx: Seq<u32>, cnt: Seq<u32>, n: nat)
    requires
        n <= cnt.len(),
        counts_sum(cnt, cnt.len()) <= idx.len(),
    ensures
        runs_of(idx, cnt).take(n as int).flatten() == idx.take(counts_sum(cnt, n) as int),
    decreases n,
{
    let runs: Seq<Seq<u32>> = runs_of(idx, cnt);
    lemma_counts_grow(cnt, n, cnt.len());
    if n == 0 {
        assert(runs.take(0) =~= Seq::empty());
        assert(idx.take(0) =~= Seq::empty());
    } else {
        let before: int = counts_sum(cnt, (n - 1) as nat) as int;
        let after: int = counts_sum(cnt, n) as int;
        lemma_first_runs(idx, cnt, (n - 1) as nat);
        assert(runs.take(n as int) =~= runs.take(n - 1).push(runs[n - 1]));
        runs.take(n - 1).lemma_flatten_push(runs[n - 1]);
        assert(idx.take(before) + idx.subrange(before, after) =~= idx.take(after));
    }
}

/// The runs of an expression, laid end to end, are the factors that it was made from, and
/// each run has as many of them as its count says.
pub proof fn lemma_runs_end_to_end(idx: Seq<u32>, cnt: Seq<u32>)
    requires
        counts_sum(cnt, cnt.len()) == idx.len(),
    ensures
        runs_of(idx, cnt).len() == cnt.len(),
        runs_of(idx, cnt).flatten() == idx,
        forall|t: int| 0 <= t < cnt.len() ==> (#[trigger] runs_of(idx, cnt)[t]).len() == cnt[t],
{
    let runs: Seq<Seq<u32>> = runs_of(idx, cnt);
    lemma_first_runs(idx, cnt, cnt.len());
    assert(runs.take(cnt.len() as int) =~= runs);
    assert(idx.take(idx.len() as int) =~= idx);
    assert forall|t: int| 0 <= t < cnt.len() implies (#[trigger] runs[t]).len() == cnt[t] by {
        lemma_counts_grow(cnt, (t + 1) as nat, cnt.len());
    }
}

/// The factors of an expression fit `p` parameters where each is at most `2 p`.
pub proof fn lemma_fitting_factors(idx: Seq<u32>, p: nat)
    ensures
        (forall|i: int| 0 <= i < idx.len() ==> #[trigger] idx[i] <= 2 * p) ==> factors_fit(idx, p),
        (exists|i: int| 0 <= i < idx.len() && #[trigger] idx[i] > 2 * p) ==> !factors_fit(idx, p),
{
    if factors_fit(idx, p) {
        assert forall|i: int| 0 <= i < idx.len() implies #[trigger] idx[i] <= 2 * p by {}
    }
}

/// Counts add up: none to zero, and one more adds itself.
pub proof fn lemma_counts_add_up(cnt: Seq<u32>, c: u32)
    ensures
        counts_sum(Seq::<u32>::empty(), 0) == 0,
        counts_sum(cnt.push(c), cnt.len() + 1) == counts_sum(cnt, cnt.len()) + c,
{
    lemma_counts_of_front(cnt, c, cnt.len());
}

proof fn lemma_counts_of_front(cnt: Seq<u32>, c: u32, n: nat)
    requires
        n <= cnt.len(),
    ensures
        counts_sum(cnt.push(c), n) == counts_sum(cnt, n),
    decreases n,
{
    if n > 0 {
        lemma_counts_of_front(cnt, c, (n - 1) as nat);
    }
}

// ---------------------------------------------------------------------
// Values
// ---------------------------------------------------------------------

/// An expression with the given terms in place of its own.
pub open spec fn with<S>(e: Expression<S>, coeffs: Seq<S>, runs: Seq<Seq<u32>>) -> Expression<S> {
    Expression { coeffs, runs, ..e }
}

proof fn lemma_first_terms(
    e: Expression<real>,
    f: Expression<real>,
    table: Seq<real>,
    n: nat,
)
    requires
        n <= e.coeffs.len(),
        n <= f.coeffs.len(),
        forall|t: int| 0 <= t < n ==> #[trigger] e.coeffs[t] == f.coeffs[t],
        forall|t: int| 0 <= t < n ==> #[trigger] e.runs[t] == f.runs[t],
    ensures
        sum_of_terms(e, table, n) == sum_of_terms(f, table, n),
    decreases n,
{
    if n > 0 {
        lemma_first_terms(e, f, table, (n - 1) as nat);
        assert(e.coeffs[n - 1] == f.coeffs[n - 1]);
        assert(e.runs[n - 1] == f.runs[n - 1]);
    }
}

/// The value of an expression, term by term and factor by factor. No terms are worth zero.
/// One term more, without factors, adds its coefficient. One factor more on the last term
/// multiplies what that term adds by the sine of the angle `k` where the factor is `k`
/// below the number of parameters, by one where it is that number, and by the cosine of the
/// angle `k` where it is that number and `k + 1` more.
pub proof fn lemma_value_by_parts(
    e: Expression<real>,
    c: real,
    run: Seq<u32>,
    factor: u32,
    sins: Seq<real>,
    coss: Seq<real>,
)
    requires
        e.runs.len() == e.coeffs.len(),
        sins.len() == e.num_params,
        coss.len() == e.num_params,
        factor < 2 * e.num_params + 1,
    ensures
        value(with(e, Seq::empty(), Seq::empty()), sins, coss) == 0real,
        value(
            with(e, e.coeffs.push(c), e.runs.push(Seq::empty())),
            sins,
            coss,
        ) == value(e, sins, coss) + c,
        ({
            let shorter = value(with(e, e.coeffs.push(c), e.runs.push(run)), sins, coss);
            let longer = value(
                with(e, e.coeffs.push(c), e.runs.push(run.push(factor))),
                sins,
                coss,
            );
            let rest = value(e, sins, coss);
            let p = e.num_params;
            &&& factor < p ==> longer - rest == (shorter - rest) * sins[factor as int]
            &&& factor == p ==> longer == shorter
            &&& factor > p ==> longer - rest == (shorter - rest) * coss[factor - p - 1]
        }),
{
    let table: Seq<real> = factor_table(sins, coss);
    let n: nat = e.coeffs.len();
    let none: Expression<real> = with(e, Seq::empty(), Seq::empty());
    let bare: Expression<real> = with(e, e.coeffs.push(c), e.runs.push(Seq::empty()));
    let short: Expression<real> = with(e, e.coeffs.push(c), e.runs.push(run));
    let long: Expression<real> = with(e, e.coeffs.push(c), e.runs.push(run.push(factor)));
    lemma_value(none, sins, coss);
    lemma_value(e, sins, coss);
    lemma_value(bare, sins, coss);
    lemma_value(short, sins, coss);
    lemma_value(long, sins, coss);
    lemma_first_terms(e, bare, table, n);
    lemma_first_terms(e, short, table, n);
    lemma_first_terms(e, long, table, n);
    assert(bare.coeffs.len() == n + 1 && short.coeffs.len() == n + 1 && long.coeffs.len() == n + 1);
    assert(bare.runs[n as int] == Seq::<u32>::empty());
    assert(short.runs[n as int] == run);
    assert(long.runs[n as int] == run.push(factor));
    assert(run.push(factor).drop_last() =~= run);
    let (x, y): (real, real) = (product_of(table, run), table[factor as int]);
    lemma_mul(c, 1real, 0real);
    lemma_mul(c, x, y);
    lemma_mul(c * x, 1real, 0real);
    assert(table[factor as int] == if factor < e.num_params {
        sins[factor as int]
    } else if factor == e.num_params {
        1real
    } else {
        coss[factor - e.num_params - 1]
    });
}

// ---------------------------------------------------------------------
// The accumulator
// ---------------------------------------------------------------------

/// Each factor of a run adds the term to the accumulator in one place, that of the factor in
/// one of the copies, and changes no other. The factors that fill groups of as many as there
/// are copies go to the copies in turn, those that are left to the first.
pub proof fn lemma_scatter_adds_once<S: Arith>(
    acc: Seq<S>,
    run: Seq<u32>,
    term: S,
    width: nat,
    copies: nat,
    n: nat,
    i: int,
)
    requires
        copies > 0,
        acc.len() == copies * width,
        forall|j: int| 0 <= j < run.len() ==> (#[trigger] run[j]) < width,
        n < run.len(),
        0 <= i < acc.len(),
    ensures
        scattered(acc, run, term, width, copies, 0) == acc,
        scattered(acc, run, term, width, copies, n).len() == acc.len(),
        ({
            let before = scattered(acc, run, term, width, copies, n);
            let after = scattered(acc, run, term, width, copies, n + 1);
            let copy = if n < run.len() - run.len() % copies {
                n as int % copies as int
            } else {
                0
            };
            &&& after.len() == acc.len()
            &&& i == copy * width + run[n as int] ==> after[i] == before[i].spec_plus(term)
            &&& i != copy * width + run[n as int] ==> after[i] == before[i]
        }),
    decreases n,
{
    let copy: int = if n < run.len() - run.len() % copies {
        n as int % copies as int
    } else {
        0
    };
    assert(0 * width == 0) by (nonlinear_arith);
    assert(run[n as int] < width);
    lemma_place_fits(width, copies, copy, run[n as int] as int);
    assert(slot(run, width, copies, n as int) == copy * width + run[n as int]);
    if n > 0 {
        lemma_scatter_adds_once(acc, run, term, width, copies, (n - 1) as nat, i);
    }
    let before: Seq<S> = scattered(acc, run, term, width, copies, n);
    let place: int = copy * width + run[n as int];
    assert(scattered(acc, run, term, width, copies, n + 1) == before.update(
        place,
        before[place].spec_plus(term),
    ));
}

} // verus!
