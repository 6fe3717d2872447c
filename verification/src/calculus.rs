//! What the formulas of the evaluator come to in exact arithmetic.

use vstd::prelude::*;

use crate::evaluator::{
    chain_product, chain_value_sum, copies_for, copies_sum, counts_sum, exact_gradient,
    factor_table, factors_fit, fast_gradient, gathered, has_small, lane_product, lanes_product,
    lemma_counts_grow, max_count, prefix_product, product_without, runs_of, scattered, slot,
    suffix_product, term_value, value, value_and_gradient, value_sum, with_factor, with_factors,
    with_terms, Expression,
};
use crate::scalar::Arith;

verus! {

/// Whether an expression has a run for each coefficient, with factors of its index
/// space, and at least one copy of the accumulator.
pub open spec fn is_sound<S>(e: Expression<S>) -> bool {
    &&& e.runs.len() == e.coeffs.len()
    &&& forall|t: int| 0 <= t < e.runs.len() ==> factors_fit(#[trigger] e.runs[t], e.num_params)
    &&& e.copies > 0
}

/// The product of all factors of a run.
pub open spec fn product_of(table: Seq<real>, run: Seq<u32>) -> real
    decreases run.len(),
{
    if run.len() == 0 {
        1real
    } else {
        product_of(table, run.drop_last()) * table[run.last() as int]
    }
}

/// The sum of the first `n` terms.
pub open spec fn sum_of_terms(e: Expression<real>, table: Seq<real>, n: nat) -> real
    decreases n,
{
    if n == 0 {
        0real
    } else {
        sum_of_terms(e, table, (n - 1) as nat) + e.coeffs[n - 1] * product_of(table, e.runs[n - 1])
    }
}

// ---------------------------------------------------------------------
// Real numbers
// ---------------------------------------------------------------------

proof fn lemma_assoc(x: real, y: real, z: real)
    ensures
        x * (y * z) == (x * y) * z,
{
    assert(x * (y * z) == (x * y) * z) by (nonlinear_arith);
}

proof fn lemma_swap(x: real, y: real, z: real)
    ensures
        (x * y) * z == (x * z) * y,
{
    assert((x * y) * z == (x * z) * y) by (nonlinear_arith);
}

proof fn lemma_commute(x: real, y: real)
    ensures
        x * y == y * x,
{
    assert(x * y == y * x) by (nonlinear_arith);
}

proof fn lemma_distribute(x: real, y: real, z: real)
    ensures
        x * (y + z) == x * y + x * z,
        x * (y - z) == x * y - x * z,
        (y + z) * x == y * x + z * x,
{
    assert(x * (y + z) == x * y + x * z) by (nonlinear_arith);
    assert(x * (y - z) == x * y - x * z) by (nonlinear_arith);
    assert((y + z) * x == y * x + z * x) by (nonlinear_arith);
}

proof fn lemma_negate(x: real, y: real)
    ensures
        x * (-y) == -(x * y),
{
    assert(x * (-y) == -(x * y)) by (nonlinear_arith);
}

proof fn lemma_divide(x: real, y: real)
    requires
        y != 0real,
    ensures
        y * (x / y) == x,
{
    assert(y * (x / y) == x) by (nonlinear_arith)
        requires
            y != 0real,
    ;
}

proof fn lemma_one(x: real)
    ensures
        x * 1real == x,
        1real * x == x,
        x * 0real == 0real,
        0real * x == 0real,
{
    assert(x * 1real == x && 1real * x == x && x * 0real == 0real && 0real * x == 0real)
        by (nonlinear_arith);
}

// ---------------------------------------------------------------------
// Values
// ---------------------------------------------------------------------

proof fn lemma_product_step(table: Seq<real>, run: Seq<u32>, j: int)
    requires
        0 <= j < run.len(),
    ensures
        product_of(table, run.take(j + 1)) == product_of(table, run.take(j)) * table[run[j] as int],
{
    assert(run.take(j + 1).drop_last() =~= run.take(j));
}

proof fn lemma_chain(x: real, y: real, table: Seq<real>, run: Seq<u32>, from: int, to: int)
    requires
        0 <= from <= to <= run.len(),
        x * y == product_of(table, run.take(from)),
    ensures
        chain_product(x, table, run, from, to) * y == product_of(table, run.take(to)),
    decreases to - from,
{
    if from < to {
        lemma_chain(x, y, table, run, from, to - 1);
        lemma_product_step(table, run, to - 1);
        let c: real = chain_product(x, table, run, from, to - 1);
        let f: real = table[run[to - 1] as int];
        lemma_swap(c, f, y);
    }
}

proof fn lemma_pair_grows(a: real, s: real, b: real, t: real)
    ensures
        (a * s) * (b * t) == ((a * b) * s) * t,
{
    lemma_assoc(a * s, b, t);
    lemma_swap(a, s, b);
}

proof fn lemma_lanes(table: Seq<real>, run: Seq<u32>, n: nat)
    requires
        4 * n <= run.len(),
    ensures
        lane_product(table, run, 0, n) * lane_product(table, run, 1, n) * (lane_product(
            table,
            run,
            2,
            n,
        ) * lane_product(table, run, 3, n)) == product_of(table, run.take(4 * n as int)),
    decreases n,
{
    if n == 0 {
        assert(run.take(0).len() == 0);
        lemma_one(1real);
    } else {
        let m: nat = (n - 1) as nat;
        let i: int = 4 * m as int;
        lemma_lanes(table, run, m);
        lemma_product_step(table, run, i);
        lemma_product_step(table, run, i + 1);
        lemma_product_step(table, run, i + 2);
        lemma_product_step(table, run, i + 3);
        let a: real = lane_product(table, run, 0, m);
        let b: real = lane_product(table, run, 1, m);
        let c: real = lane_product(table, run, 2, m);
        let d: real = lane_product(table, run, 3, m);
        let t0: real = table[run[i] as int];
        let t1: real = table[run[i + 1] as int];
        let t2: real = table[run[i + 2] as int];
        let t3: real = table[run[i + 3] as int];
        lemma_pair_grows(a, t0, b, t1);
        lemma_pair_grows(c, t2, d, t3);
        let y: real = ((a * b) * t0) * t1;
        lemma_assoc(y, (c * d) * t2, t3);
        lemma_assoc(y, c * d, t2);
        lemma_swap((a * b) * t0, t1, c * d);
        lemma_swap(a * b, t0, c * d);
    }
}

/// Gathered in lanes or not, a product is the product of its factors.
pub proof fn lemma_lanes_product(table: Seq<real>, run: Seq<u32>)
    ensures
        lanes_product(table, run) == product_of(table, run),
{
    let n: nat = (run.len() / 4) as nat;
    let a: real = lane_product(table, run, 0, n);
    let b: real = lane_product(table, run, 1, n);
    let c: real = lane_product(table, run, 2, n);
    let d: real = lane_product(table, run, 3, n);
    let rest: real = b * (c * d);
    lemma_lanes(table, run, n);
    lemma_assoc(a, b, c * d);
    lemma_chain(a, rest, table, run, 4 * n as int, run.len() as int);
    assert(run.take(run.len() as int) =~= run);
    let x: real = chain_product(a, table, run, 4 * n as int, run.len() as int);
    lemma_assoc(x, b, c * d);
}

/// A product gathered from the front is the product of its factors.
pub proof fn lemma_prefix_product(table: Seq<real>, run: Seq<u32>, j: int)
    requires
        0 <= j <= run.len(),
    ensures
        prefix_product(table, run, j) == product_of(table, run.take(j)),
{
    assert(run.take(0).len() == 0);
    lemma_one(1real);
    lemma_chain(1real, 1real, table, run, 0, j);
    let x: real = prefix_product(table, run, j);
    lemma_one(x);
}

/// Summed from zero, the values of the terms are the sum of the terms.
pub proof fn lemma_value_sum(e: Expression<real>, table: Seq<real>, n: nat)
    ensures
        value_sum(0real, e, table, n) == sum_of_terms(e, table, n),
        chain_value_sum(0real, e, table, n) == sum_of_terms(e, table, n),
    decreases n,
{
    if n > 0 {
        lemma_value_sum(e, table, (n - 1) as nat);
        let run: Seq<u32> = e.runs[n - 1];
        lemma_lanes_product(table, run);
        lemma_prefix_product(table, run, run.len() as int);
        assert(run.take(run.len() as int) =~= run);
    }
}

/// The value of an expression is the sum of its terms, each its coefficient times the
/// product of its factors.
pub proof fn lemma_value(e: Expression<real>, sins: Seq<real>, coss: Seq<real>)
    ensures
        value(e, sins, coss) == sum_of_terms(e, factor_table(sins, coss), e.coeffs.len()),
{
    lemma_value_sum(e, factor_table(sins, coss), e.coeffs.len());
}

// ---------------------------------------------------------------------
// Derivatives
// ---------------------------------------------------------------------

/// The derivative of one factor in the angle `k`: the sine of that angle gives the
/// cosine, the cosine minus the sine, any other factor zero.
pub open spec fn factor_derivative(
    sins: Seq<real>,
    coss: Seq<real>,
    entry: u32,
    k: int,
) -> real {
    if entry == k {
        coss[k]
    } else if entry == sins.len() + 1 + k {
        -sins[k]
    } else {
        0real
    }
}

/// The derivative of a product of factors in the angle `k`, by the product rule.
pub open spec fn product_derivative(
    sins: Seq<real>,
    coss: Seq<real>,
    run: Seq<u32>,
    k: int,
) -> real
    decreases run.len(),
{
    if run.len() == 0 {
        0real
    } else {
        let front = run.drop_last();
        let table = factor_table(sins, coss);
        product_derivative(sins, coss, front, k) * table[run.last() as int] + product_of(
            table,
            front,
        ) * factor_derivative(sins, coss, run.last(), k)
    }
}

/// The derivative of the first `n` terms in the angle `k`.
pub open spec fn derivative_of_terms(
    e: Expression<real>,
    sins: Seq<real>,
    coss: Seq<real>,
    k: int,
    n: nat,
) -> real
    decreases n,
{
    if n == 0 {
        0real
    } else {
        derivative_of_terms(e, sins, coss, k, (n - 1) as nat) + e.coeffs[n - 1]
            * product_derivative(sins, coss, e.runs[n - 1], k)
    }
}

/// The gradient of an expression.
pub open spec fn gradient(e: Expression<real>, sins: Seq<real>, coss: Seq<real>) -> Seq<real> {
    Seq::new(e.num_params, |k: int| derivative_of_terms(e, sins, coss, k, e.coeffs.len()))
}

// ---------------------------------------------------------------------
// Partial products
// ---------------------------------------------------------------------

proof fn lemma_with_factor(
    grad: Seq<real>,
    sins: Seq<real>,
    coss: Seq<real>,
    entry: u32,
    rest: real,
    k: int,
)
    requires
        sins.len() == coss.len(),
        grad.len() >= sins.len(),
        entry < 2 * sins.len() + 1,
        0 <= k < sins.len(),
    ensures
        with_factor(grad, sins, coss, entry, rest).len() == grad.len(),
        with_factor(grad, sins, coss, entry, rest)[k] == grad[k] + rest * factor_derivative(
            sins,
            coss,
            entry,
            k,
        ),
{
    lemma_one(rest);
    lemma_negate(rest, sins[k]);
}

/// The derivatives of the factors of one term from `j` on.
pub open spec fn tail_derivative(
    c: real,
    sins: Seq<real>,
    coss: Seq<real>,
    run: Seq<u32>,
    k: int,
    j: int,
) -> real
    decreases run.len() - j,
{
    if j < 0 || j >= run.len() {
        0real
    } else {
        tail_derivative(c, sins, coss, run, k, j + 1) + product_without(
            c,
            factor_table(sins, coss),
            run,
            j,
        ) * factor_derivative(sins, coss, run[j], k)
    }
}

proof fn lemma_with_factors(
    grad: Seq<real>,
    sins: Seq<real>,
    coss: Seq<real>,
    c: real,
    run: Seq<u32>,
    k: int,
    j: int,
)
    requires
        sins.len() == coss.len(),
        grad.len() >= sins.len(),
        factors_fit(run, sins.len()),
        0 <= k < sins.len(),
        0 <= j <= run.len(),
    ensures
        with_factors(grad, sins, coss, c, run, j).len() == grad.len(),
        with_factors(grad, sins, coss, c, run, j)[k] == grad[k] + tail_derivative(
            c,
            sins,
            coss,
            run,
            k,
            j,
        ),
    decreases run.len() - j,
{
    if j < run.len() {
        lemma_with_factors(grad, sins, coss, c, run, k, j + 1);
        assert(run[j] < 2 * sins.len() + 1);
        lemma_with_factor(
            with_factors(grad, sins, coss, c, run, j + 1),
            sins,
            coss,
            run[j],
            product_without(c, factor_table(sins, coss), run, j),
            k,
        );
    }
}

proof fn lemma_tail_derivative(
    c: real,
    sins: Seq<real>,
    coss: Seq<real>,
    run: Seq<u32>,
    k: int,
    j: int,
)
    requires
        0 <= j <= run.len(),
    ensures
        (c * product_derivative(sins, coss, run.take(j), k)) * suffix_product(
            factor_table(sins, coss),
            run,
            j,
        ) + tail_derivative(c, sins, coss, run, k, j) == tail_derivative(c, sins, coss, run, k, 0),
    decreases j,
{
    let table: Seq<real> = factor_table(sins, coss);
    if j == 0 {
        assert(run.take(0).len() == 0);
        lemma_one(c);
        lemma_one(suffix_product(table, run, 0));
    } else {
        let i: int = j - 1;
        lemma_tail_derivative(c, sins, coss, run, k, i);
        lemma_prefix_product(table, run, i);
        assert(run.take(j).drop_last() =~= run.take(i));
        let d: real = product_derivative(sins, coss, run.take(i), k);
        let p: real = product_of(table, run.take(i));
        let f: real = factor_derivative(sins, coss, run[i], k);
        let t: real = table[run[i] as int];
        let s: real = suffix_product(table, run, j);
        lemma_distribute(c, d * t, p * f);
        lemma_distribute(s, c * (d * t), c * (p * f));
        lemma_assoc(c, d, t);
        lemma_swap(c * d, t, s);
        lemma_assoc(c * d, s, t);
        lemma_assoc(c, p, f);
        lemma_swap(c * p, f, s);
    }
}

proof fn lemma_with_terms(
    e: Expression<real>,
    sins: Seq<real>,
    coss: Seq<real>,
    k: int,
    n: nat,
)
    requires
        is_sound(e),
        sins.len() == e.num_params,
        coss.len() == e.num_params,
        0 <= k < e.num_params,
        n <= e.coeffs.len(),
    ensures
        with_terms(Seq::new(e.num_params, |i: int| 0real), e, sins, coss, n).len() == e.num_params,
        with_terms(Seq::new(e.num_params, |i: int| 0real), e, sins, coss, n)[k]
            == derivative_of_terms(e, sins, coss, k, n),
    decreases n,
{
    let start: Seq<real> = Seq::new(e.num_params, |i: int| 0real);
    if n > 0 {
        let m: nat = (n - 1) as nat;
        let run: Seq<u32> = e.runs[n - 1];
        let c: real = e.coeffs[n - 1];
        lemma_with_terms(e, sins, coss, k, m);
        assert(factors_fit(run, sins.len()));
        lemma_with_factors(with_terms(start, e, sins, coss, m), sins, coss, c, run, k, 0);
        lemma_tail_derivative(c, sins, coss, run, k, run.len() as int);
        assert(run.take(run.len() as int) =~= run);
        lemma_one(c * product_derivative(sins, coss, run, k));
    }
}

/// The gradient by partial products is added to what is there, and nothing beyond the
/// parameters changes.
pub proof fn lemma_gradient_is_added(
    start: Seq<real>,
    e: Expression<real>,
    sins: Seq<real>,
    coss: Seq<real>,
    n: nat,
)
    requires
        is_sound(e),
        sins.len() == e.num_params,
        coss.len() == e.num_params,
        start.len() >= e.num_params,
        n <= e.coeffs.len(),
    ensures
        with_terms(start, e, sins, coss, n).len() == start.len(),
        forall|k: int|
            0 <= k < e.num_params ==> #[trigger] with_terms(start, e, sins, coss, n)[k] == start[k]
                + derivative_of_terms(e, sins, coss, k, n),
        forall|k: int|
            e.num_params <= k < start.len() ==> #[trigger] with_terms(start, e, sins, coss, n)[k]
                == start[k],
    decreases n,
{
    if n > 0 {
        let m: nat = (n - 1) as nat;
        let run: Seq<u32> = e.runs[n - 1];
        let c: real = e.coeffs[n - 1];
        let before: Seq<real> = with_terms(start, e, sins, coss, m);
        lemma_gradient_is_added(start, e, sins, coss, m);
        assert(factors_fit(run, sins.len()));
        lemma_beyond_parameters(before, sins, coss, c, run, 0);
        assert forall|k: int| 0 <= k < e.num_params implies #[trigger] with_terms(
            start,
            e,
            sins,
            coss,
            n,
        )[k] == start[k] + derivative_of_terms(e, sins, coss, k, n) by {
            assert(before[k] == start[k] + derivative_of_terms(e, sins, coss, k, m));
            lemma_with_factors(before, sins, coss, c, run, k, 0);
            lemma_tail_derivative(c, sins, coss, run, k, run.len() as int);
            assert(run.take(run.len() as int) =~= run);
            lemma_one(c * product_derivative(sins, coss, run, k));
        }
        assert forall|k: int| e.num_params <= k < start.len() implies #[trigger] with_terms(
            start,
            e,
            sins,
            coss,
            n,
        )[k] == start[k] by {
            assert(before[k] == start[k]);
        }
    }
}

proof fn lemma_beyond_parameters(
    grad: Seq<real>,
    sins: Seq<real>,
    coss: Seq<real>,
    c: real,
    run: Seq<u32>,
    j: int,
)
    requires
        sins.len() == coss.len(),
        grad.len() >= sins.len(),
        factors_fit(run, sins.len()),
        0 <= j <= run.len(),
    ensures
        with_factors(grad, sins, coss, c, run, j).len() == grad.len(),
        forall|k: int|
            sins.len() <= k < grad.len() ==> #[trigger] with_factors(grad, sins, coss, c, run, j)[k]
                == grad[k],
    decreases run.len() - j,
{
    if j < run.len() {
        lemma_beyond_parameters(grad, sins, coss, c, run, j + 1);
        assert(run[j] < 2 * sins.len() + 1);
        let after: Seq<real> = with_factors(grad, sins, coss, c, run, j + 1);
        assert forall|k: int| sins.len() <= k < grad.len() implies #[trigger] with_factors(
            grad,
            sins,
            coss,
            c,
            run,
            j,
        )[k] == grad[k] by {
            assert(after[k] == grad[k]);
        }
    }
}

/// The gradient by partial products is the gradient.
pub proof fn lemma_exact_gradient(e: Expression<real>, sins: Seq<real>, coss: Seq<real>)
    requires
        is_sound(e),
        sins.len() == e.num_params,
        coss.len() == e.num_params,
    ensures
        exact_gradient(e, sins, coss) == gradient(e, sins, coss),
{
    let start: Seq<real> = Seq::new(e.num_params, |i: int| 0real);
    assert(Seq::new(e.num_params, |k: int| real::spec_zero()) =~= start);
    if e.num_params > 0 {
        lemma_with_terms(e, sins, coss, 0, e.coeffs.len());
    } else {
        lemma_no_parameters(start, e, sins, coss, e.coeffs.len());
    }
    assert forall|k: int| 0 <= k < e.num_params implies exact_gradient(e, sins, coss)[k]
        == derivative_of_terms(e, sins, coss, k, e.coeffs.len()) by {
        lemma_with_terms(e, sins, coss, k, e.coeffs.len());
    }
    assert(exact_gradient(e, sins, coss) =~= gradient(e, sins, coss));
}

proof fn lemma_no_parameters(
    grad: Seq<real>,
    e: Expression<real>,
    sins: Seq<real>,
    coss: Seq<real>,
    n: nat,
)
    requires
        is_sound(e),
        e.num_params == 0,
        sins.len() == 0,
        n <= e.coeffs.len(),
    ensures
        with_terms(grad, e, sins, coss, n) == grad,
    decreases n,
{
    if n > 0 {
        lemma_no_parameters(grad, e, sins, coss, (n - 1) as nat);
        lemma_no_factors(grad, sins, coss, e.coeffs[n - 1], e.runs[n - 1], 0);
    }
}

proof fn lemma_no_factors(
    grad: Seq<real>,
    sins: Seq<real>,
    coss: Seq<real>,
    c: real,
    run: Seq<u32>,
    j: int,
)
    requires
        sins.len() == 0,
        factors_fit(run, 0),
        0 <= j <= run.len(),
    ensures
        with_factors(grad, sins, coss, c, run, j) == grad,
    decreases run.len() - j,
{
    if j < run.len() {
        lemma_no_factors(grad, sins, coss, c, run, j + 1);
        assert(run[j] < 1);
    }
}

// ---------------------------------------------------------------------
// Logarithmic derivatives
// ---------------------------------------------------------------------

/// How often a factor occurs in a run.
pub open spec fn times_in(run: Seq<u32>, m: int) -> real
    decreases run.len(),
{
    if run.len() == 0 {
        0real
    } else {
        times_in(run.drop_last(), m) + if run.last() == m {
            1real
        } else {
            0real
        }
    }
}

/// The values of the first `n` terms, each as often as the factor `m` occurs in it.
pub open spec fn weighted_sum(e: Expression<real>, table: Seq<real>, m: int, n: nat) -> real
    decreases n,
{
    if n == 0 {
        0real
    } else {
        weighted_sum(e, table, m, (n - 1) as nat) + term_value(e, table, n - 1) * times_in(
            e.runs[n - 1],
            m,
        )
    }
}

/// Places in the copies of the accumulator do not overlap.
proof fn lemma_places_differ(width: nat, a: int, m: int, b: int, l: int)
    requires
        0 <= m < width,
        0 <= l < width,
        a * width + m == b * width + l,
    ensures
        a == b,
        m == l,
{
    assert(a == b) by (nonlinear_arith)
        requires
            0 <= m < width,
            0 <= l < width,
            a * width + m == b * width + l,
    ;
}

/// Places lie in the accumulator.
pub proof fn lemma_place_fits(width: nat, copies: nat, a: int, m: int)
    requires
        0 <= m < width,
        0 <= a < copies,
    ensures
        0 <= a * width + m < copies * width,
{
    assert(0 <= a * width + m < copies * width) by (nonlinear_arith)
        requires
            0 <= m < width,
            0 <= a < copies,
    ;
}

/// What adding `v` in one place of the accumulator does to the sums over its copies.
proof fn lemma_copies_sum_update(
    acc: Seq<real>,
    width: nat,
    copies: nat,
    a: int,
    l: int,
    v: real,
    m: int,
    n: nat,
)
    requires
        acc.len() == copies * width,
        0 <= a < copies,
        0 <= l < width,
        0 <= m < width,
        n <= copies,
    ensures
        copies_sum(acc.update(a * width + l, acc[a * width + l] + v), width, m, n) == copies_sum(
            acc,
            width,
            m,
            n,
        ) + if a < n && l == m {
            v
        } else {
            0real
        },
    decreases n,
{
    if n > 0 {
        lemma_copies_sum_update(acc, width, copies, a, l, v, m, (n - 1) as nat);
        lemma_place_fits(width, copies, a, l);
        lemma_place_fits(width, copies, n - 1, m);
        if (n - 1) * width + m == a * width + l {
            lemma_places_differ(width, n - 1, m, a, l);
        }
    }
}

proof fn lemma_scattered(
    acc: Seq<real>,
    run: Seq<u32>,
    term: real,
    num_params: nat,
    copies: nat,
    m: int,
    n: nat,
)
    requires
        copies > 0,
        acc.len() == copies * (2 * num_params + 1),
        factors_fit(run, num_params),
        0 <= m < 2 * num_params + 1,
        n <= run.len(),
    ensures
        scattered(acc, run, term, 2 * num_params + 1, copies, n).len() == acc.len(),
        copies_sum(
            scattered(acc, run, term, 2 * num_params + 1, copies, n),
            2 * num_params + 1,
            m,
            copies,
        ) == copies_sum(acc, 2 * num_params + 1, m, copies) + term * times_in(
            run.take(n as int),
            m,
        ),
    decreases n,
{
    let width: nat = 2 * num_params + 1;
    if n == 0 {
        assert(run.take(0).len() == 0);
        lemma_one(term);
    } else {
        let j: int = n - 1;
        lemma_scattered(acc, run, term, num_params, copies, m, (n - 1) as nat);
        let before: Seq<real> = scattered(acc, run, term, width, copies, (n - 1) as nat);
        let a: int = if j < run.len() - run.len() % copies {
            j % copies as int
        } else {
            0
        };
        assert(run[j] < width);
        assert(0 * width == 0) by (nonlinear_arith);
        assert(slot(run, width, copies, j) == a * width + run[j]);
        lemma_place_fits(width, copies, a, run[j] as int);
        lemma_copies_sum_update(before, width, copies, a, run[j] as int, term, m, copies);
        assert(run.take(n as int).drop_last() =~= run.take(j));
        let seen: real = times_in(run.take(j), m);
        lemma_distribute(term, seen, 1real);
        lemma_distribute(term, seen, 0real);
        lemma_one(term);
    }
}

proof fn lemma_zero_copies(acc: Seq<real>, width: nat, copies: nat, m: int, n: nat)
    requires
        acc.len() == copies * width,
        forall|i: int| 0 <= i < acc.len() ==> #[trigger] acc[i] == 0real,
        0 <= m < width,
        n <= copies,
    ensures
        copies_sum(acc, width, m, n) == 0real,
    decreases n,
{
    if n > 0 {
        lemma_zero_copies(acc, width, copies, m, (n - 1) as nat);
        lemma_place_fits(width, copies, n - 1, m);
    }
}

proof fn lemma_gathered(e: Expression<real>, table: Seq<real>, m: int, n: nat)
    requires
        is_sound(e),
        0 <= m < 2 * e.num_params + 1,
        n <= e.coeffs.len(),
    ensures
        gathered(e, table, n).len() == e.copies * (2 * e.num_params + 1),
        copies_sum(gathered(e, table, n), 2 * e.num_params + 1, m, e.copies) == weighted_sum(
            e,
            table,
            m,
            n,
        ),
    decreases n,
{
    let width: nat = 2 * e.num_params + 1;
    if n == 0 {
        lemma_zero_copies(gathered(e, table, 0), width, e.copies, m, e.copies);
    } else {
        let run: Seq<u32> = e.runs[n - 1];
        lemma_gathered(e, table, m, (n - 1) as nat);
        assert(factors_fit(run, e.num_params));
        lemma_scattered(
            gathered(e, table, (n - 1) as nat),
            run,
            term_value(e, table, n - 1),
            e.num_params,
            e.copies,
            m,
            run.len(),
        );
        assert(run.take(run.len() as int) =~= run);
    }
}

/// The derivative of a product, over the product.
proof fn lemma_product_derivative(sins: Seq<real>, coss: Seq<real>, run: Seq<u32>, k: int)
    requires
        sins.len() == coss.len(),
        factors_fit(run, sins.len()),
        0 <= k < sins.len(),
        sins[k] != 0real,
        coss[k] != 0real,
    ensures
        product_derivative(sins, coss, run, k) == product_of(factor_table(sins, coss), run) * (
        times_in(run, k) * (coss[k] / sins[k]) - times_in(run, sins.len() + 1 + k) * (sins[k]
            / coss[k])),
    decreases run.len(),
{
    let table: Seq<real> = factor_table(sins, coss);
    let s: real = sins[k];
    let c: real = coss[k];
    let cot: real = c / s;
    let tan: real = s / c;
    lemma_divide(c, s);
    lemma_divide(s, c);
    if run.len() == 0 {
        lemma_one(cot);
        lemma_one(tan);
        lemma_one(1real);
    } else {
        let front: Seq<u32> = run.drop_last();
        let entry: u32 = run.last();
        assert(factors_fit(front, sins.len())) by {
            assert forall|i: int| 0 <= i < front.len() implies (#[trigger] front[i]) < 2
                * sins.len() + 1 by {
                assert(front[i] == run[i]);
            }
        }
        assert(run[run.len() - 1] < 2 * sins.len() + 1);
        lemma_product_derivative(sins, coss, front, k);
        let p: real = product_of(table, front);
        let n: real = times_in(front, k);
        let m: real = times_in(front, sins.len() + 1 + k);
        let g: real = n * cot - m * tan;
        let t: real = table[entry as int];
        lemma_swap(p, g, t);
        lemma_one(p);
        if entry == k {
            assert(t == s);
            lemma_distribute(cot, n, 1real);
            lemma_one(cot);
            lemma_distribute(p * s, g, cot);
            lemma_assoc(p, s, cot);
        } else if entry == sins.len() + 1 + k {
            assert(t == c);
            lemma_distribute(tan, m, 1real);
            lemma_one(tan);
            lemma_distribute(p * c, g, tan);
            lemma_assoc(p, c, tan);
            lemma_negate(p, s);
        }
    }
}

proof fn lemma_weighted_sums(
    e: Expression<real>,
    sins: Seq<real>,
    coss: Seq<real>,
    k: int,
    n: nat,
)
    requires
        is_sound(e),
        sins.len() == e.num_params,
        coss.len() == e.num_params,
        0 <= k < e.num_params,
        sins[k] != 0real,
        coss[k] != 0real,
        n <= e.coeffs.len(),
    ensures
        (coss[k] / sins[k]) * weighted_sum(e, factor_table(sins, coss), k, n) - (sins[k] / coss[k])
            * weighted_sum(e, factor_table(sins, coss), e.num_params + 1 + k, n)
            == derivative_of_terms(e, sins, coss, k, n),
    decreases n,
{
    let table: Seq<real> = factor_table(sins, coss);
    let cot: real = coss[k] / sins[k];
    let tan: real = sins[k] / coss[k];
    let l: int = e.num_params + 1 + k;
    if n == 0 {
        lemma_one(cot);
        lemma_one(tan);
    } else {
        let i: nat = (n - 1) as nat;
        let run: Seq<u32> = e.runs[n - 1];
        lemma_weighted_sums(e, sins, coss, k, i);
        assert(factors_fit(run, sins.len()));
        lemma_product_derivative(sins, coss, run, k);
        lemma_lanes_product(table, run);
        let c: real = e.coeffs[n - 1];
        let p: real = product_of(table, run);
        let q: real = c * p;
        let a: real = times_in(run, k);
        let b: real = times_in(run, l);
        assert(term_value(e, table, n - 1) == q);
        lemma_distribute(cot, weighted_sum(e, table, k, i), q * a);
        lemma_distribute(tan, weighted_sum(e, table, l, i), q * b);
        lemma_assoc(c, p, a * cot - b * tan);
        lemma_distribute(q, a * cot, b * tan);
        lemma_assoc(q, a, cot);
        lemma_assoc(q, b, tan);
        lemma_commute(cot, q * a);
        lemma_commute(tan, q * b);
    }
}

/// Away from the zeros of sine and cosine, the gradient by logarithmic derivatives is
/// the gradient.
pub proof fn lemma_fast_gradient(e: Expression<real>, sins: Seq<real>, coss: Seq<real>)
    requires
        is_sound(e),
        sins.len() == e.num_params,
        coss.len() == e.num_params,
        forall|k: int| 0 <= k < e.num_params ==> #[trigger] sins[k] != 0real,
        forall|k: int| 0 <= k < e.num_params ==> #[trigger] coss[k] != 0real,
    ensures
        fast_gradient(e, sins, coss) == gradient(e, sins, coss),
{
    let table: Seq<real> = factor_table(sins, coss);
    assert forall|k: int| 0 <= k < e.num_params implies fast_gradient(e, sins, coss)[k]
        == derivative_of_terms(e, sins, coss, k, e.coeffs.len()) by {
        assert(sins[k] != 0real && coss[k] != 0real);
        lemma_gathered(e, table, k, e.coeffs.len());
        lemma_gathered(e, table, e.num_params + 1 + k, e.coeffs.len());
        lemma_weighted_sums(e, sins, coss, k, e.coeffs.len());
    }
    assert(fast_gradient(e, sins, coss) =~= gradient(e, sins, coss));
}

/// With a tolerance above zero, value and gradient come out right at all angles,
/// whichever way the gradient is found.
pub proof fn lemma_value_and_gradient(e: Expression<real>, sins: Seq<real>, coss: Seq<real>)
    requires
        is_sound(e),
        sins.len() == e.num_params,
        coss.len() == e.num_params,
        e.tol > 0real,
    ensures
        value_and_gradient(e, sins, coss) == (value(e, sins, coss), gradient(e, sins, coss)),
{
    lemma_value_sum(e, factor_table(sins, coss), e.coeffs.len());
    if has_small(sins, e.tol) || has_small(coss, e.tol) {
        lemma_exact_gradient(e, sins, coss);
    } else {
        assert forall|k: int| 0 <= k < e.num_params implies #[trigger] sins[k] != 0real by {
            assert(!sins[k].spec_falls_below(e.tol));
        }
        assert forall|k: int| 0 <= k < e.num_params implies #[trigger] coss[k] != 0real by {
            assert(!coss[k].spec_falls_below(e.tol));
        }
        lemma_fast_gradient(e, sins, coss);
    }
}

/// The two ways to the gradient agree where both can be taken.
pub proof fn lemma_gradients_agree(e: Expression<real>, sins: Seq<real>, coss: Seq<real>)
    requires
        is_sound(e),
        sins.len() == e.num_params,
        coss.len() == e.num_params,
        forall|k: int| 0 <= k < e.num_params ==> #[trigger] sins[k] != 0real,
        forall|k: int| 0 <= k < e.num_params ==> #[trigger] coss[k] != 0real,
    ensures
        fast_gradient(e, sins, coss) == exact_gradient(e, sins, coss),
{
    lemma_fast_gradient(e, sins, coss);
    lemma_exact_gradient(e, sins, coss);
}

/// What an evaluator is made of is sound.
pub proof fn lemma_new_is_sound<S>(
    coeffs: Seq<S>,
    idx: Seq<u32>,
    cnt: Seq<u32>,
    num_params: nat,
    tol: S,
)
    requires
        cnt.len() == coeffs.len(),
        counts_sum(cnt, cnt.len()) == idx.len(),
        factors_fit(idx, num_params),
    ensures
        is_sound(
            (Expression {
                coeffs,
                runs: runs_of(idx, cnt),
                num_params,
                max_run: max_count(cnt, cnt.len()),
                copies: copies_for(num_params),
                tol,
            }),
        ),
{
    let runs: Seq<Seq<u32>> = runs_of(idx, cnt);
    assert forall|t: int| 0 <= t < runs.len() implies factors_fit(#[trigger] runs[t], num_params) by {
        lemma_counts_grow(cnt, (t + 1) as nat, cnt.len());
        let from: int = counts_sum(cnt, t as nat) as int;
        assert forall|i: int| 0 <= i < runs[t].len() implies (#[trigger] runs[t][i]) < 2 * num_params
            + 1 by {
            assert(runs[t][i] == idx[from + i]);
        }
    }
}

} // verus!
