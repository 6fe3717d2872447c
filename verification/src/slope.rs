//! The gradient of an expression is the slope of its value.

use vstd::prelude::*;

use crate::calculus::{
    derivative_of_terms, factor_derivative, gradient, is_sound, lemma_exact_gradient,
    lemma_fast_gradient, lemma_gradient_is_added, lemma_value, lemma_value_and_gradient,
    lemma_value_sum, product_derivative, product_of, sum_of_terms,
};
use crate::evaluator::{
    factor_table, factors_fit, fast_gradient, log_derivative, value, value_and_gradient, with_terms,
    Expression,
};
use crate::norm::lemma_mul;
use crate::scalar::{magnitude, Arith};

verus! {

proof fn lemma_sign_of_product(x: real, y: real)
    ensures
        x >= 0real && y >= 0real ==> x * y >= 0real,
        (-x) * y == -(x * y),
        x * (-y) == -(x * y),
{
    assert(x >= 0real && y >= 0real ==> x * y >= 0real) by (nonlinear_arith);
    assert((-x) * y == -(x * y)) by (nonlinear_arith);
    assert(x * (-y) == -(x * y)) by (nonlinear_arith);
}

proof fn lemma_magnitudes(x: real, y: real)
    ensures
        magnitude(x * y) == magnitude(x) * magnitude(y),
        magnitude(x + y) <= magnitude(x) + magnitude(y),
        magnitude(x) >= 0real,
{
    lemma_sign_of_product(x, y);
    lemma_sign_of_product(-x, y);
    lemma_sign_of_product(x, -y);
    lemma_sign_of_product(-x, -y);
}

proof fn lemma_times_at_most(x: real, y: real, z: real)
    requires
        x >= 0real,
        y <= z,
    ensures
        x * y <= x * z,
        y * x <= z * x,
{
    let d: real = z - y;
    lemma_sign_of_product(x, d);
    assert(x * (z - y) == x * z - x * y) by (nonlinear_arith);
    lemma_mul(x, y, z);
    lemma_mul(x, z, y);
}

proof fn lemma_times_difference(c: real, x: real, y: real, z: real)
    ensures
        c * (x - y - z) == c * x - c * y - c * z,
{
    let d: real = x - y;
    assert(c * (d - z) == c * d - c * z) by (nonlinear_arith);
    assert(c * (x - y) == c * x - c * y) by (nonlinear_arith);
}

/// A product, kept from being multiplied out.
#[verifier::opaque]
spec fn times(x: real, y: real) -> real {
    x * y
}

proof fn lemma_times(x: real, y: real)
    ensures
        times(x, y) == x * y,
{
    reveal(times);
}

proof fn lemma_ring(x: real, y: real, z: real)
    ensures
        times(x, y) == times(y, x),
        times(x, y + z) == times(x, y) + times(x, z),
        times(x, times(y, z)) == times(times(x, y), z),
        times(x, 1real) == x,
{
    reveal(times);
    lemma_mul(x, y, z);
}

proof fn lemma_ring_difference(x: real, y: real, z: real, w: real)
    ensures
        times(x, y - z - w) == times(x, y) - times(x, z) - times(x, w),
{
    lemma_ring(x, y - z - w, z + w);
    lemma_ring(x, z, w);
}

proof fn lemma_times_magnitude(x: real, y: real)
    ensures
        magnitude(times(x, y)) == times(magnitude(x), magnitude(y)),
        magnitude(times(x, y)) >= 0real,
{
    reveal(times);
    lemma_magnitudes(x, y);
    lemma_magnitudes(x * y, 0real);
}

proof fn lemma_sum_magnitude(x: real, y: real)
    ensures
        magnitude(x + y) <= magnitude(x) + magnitude(y),
{
    lemma_magnitudes(x, y);
}

proof fn lemma_times_bound(x: real, y: real, z: real)
    requires
        x >= 0real,
        y <= z,
    ensures
        times(x, y) <= times(x, z),
        times(y, x) <= times(z, x),
{
    reveal(times);
    lemma_times_at_most(x, y, z);
}

proof fn lemma_square(h: real)
    ensures
        times(h, h) >= 0real,
        magnitude(times(h, h)) == times(h, h),
{
    reveal(times);
    lemma_sign_of_product(h, h);
    lemma_sign_of_product(-h, -h);
    lemma_sign_of_product(h, -h);
}

/// The remainder of a product of two factors, the one `p + h q` with the remainder `x`, the
/// other `t + h d`.
proof fn lemma_remainder(p: real, pp: real, q: real, t: real, d: real, h: real)
    ensures
        times(pp, t + times(h, d)) - times(p, t) - times(h, times(q, t) + times(p, d)) == times(
            pp - p - times(h, q),
            t + times(h, d),
        ) + times(times(h, h), times(q, d)),
{
    let hd: real = times(h, d);
    let hq: real = times(h, q);
    let u: real = t + hd;
    lemma_ring_difference(u, pp, p, hq);
    lemma_ring(u, pp - p - hq, 0real);
    lemma_ring(u, pp, 0real);
    lemma_ring(u, p, 0real);
    lemma_ring(u, hq, 0real);
    lemma_ring(p, t, hd);
    lemma_ring(hq, t, hd);
    lemma_ring(h, times(q, t), times(p, d));
    lemma_ring(h, q, t);
    lemma_ring(h, p, d);
    lemma_ring(p, h, d);
    assert(times(h, times(p, d)) == times(p, hd));
    lemma_ring(hq, h, d);
    lemma_ring(h, h, q);
    lemma_ring(h, hq, 0real);
    lemma_ring(times(h, h), q, d);
    assert(times(hq, hd) == times(times(h, h), times(q, d)));
}

proof fn lemma_remainder_is_small(x: real, q: real, t: real, d: real, h: real, b: real)
    requires
        -1real <= h <= 1real,
        b >= 0real,
        magnitude(x) <= times(b, times(h, h)),
    ensures
        magnitude(times(x, t + times(h, d)) + times(times(h, h), times(q, d))) <= times(
            times(b, magnitude(t) + magnitude(d)) + times(magnitude(q), magnitude(d)),
            times(h, h),
        ),
{
    let s: real = times(h, h);
    let u: real = t + times(h, d);
    let qd: real = times(q, d);
    let (mt, md): (real, real) = (magnitude(t), magnitude(d));
    let w: real = mt + md;
    let z: real = times(b, s);
    let m: real = times(magnitude(q), md);
    lemma_square(h);
    lemma_sum_magnitude(times(x, u), times(s, qd));
    lemma_times_magnitude(x, u);
    lemma_times_magnitude(s, qd);
    lemma_times_magnitude(q, d);
    lemma_sum_magnitude(t, times(h, d));
    lemma_times_magnitude(h, d);
    lemma_times_bound(md, magnitude(h), 1real);
    lemma_ring(md, 1real, 0real);
    lemma_ring(1real, md, 0real);
    assert(magnitude(u) <= w);
    lemma_times_bound(magnitude(x), magnitude(u), w);
    lemma_times_bound(w, magnitude(x), z);
    // (b s) w == (b w) s
    lemma_ring(w, b, s);
    lemma_ring(w, b, 0real);
    lemma_ring(w, z, 0real);
    assert(times(z, w) == times(times(b, w), s));
    lemma_ring(s, times(b, w), m);
    lemma_ring(s, times(b, w) + m, 0real);
    lemma_ring(s, times(b, w), 0real);
    lemma_ring(s, m, 0real);
}

/// One more factor: `p` goes to `pp` with the tangent `q`, and the factor `t` to `t + h d`.
proof fn lemma_one_more_factor(p: real, pp: real, q: real, t: real, d: real, h: real, b: real)
    requires
        -1real <= h <= 1real,
        b >= 0real,
        magnitude(pp - p - times(h, q)) <= times(b, times(h, h)),
    ensures
        magnitude(
            times(pp, t + times(h, d)) - times(p, t) - times(h, times(q, t) + times(p, d)),
        ) <= times(
            times(b, magnitude(t) + magnitude(d)) + times(magnitude(q), magnitude(d)),
            times(h, h),
        ),
{
    lemma_remainder(p, pp, q, t, d, h);
    lemma_remainder_is_small(pp - p - times(h, q), q, t, d, h, b);
}

/// How far a product of factors is at most from its tangent, over the square of the turn.
spec fn bend(sins: Seq<real>, coss: Seq<real>, run: Seq<u32>, k: int) -> real
    decreases run.len(),
{
    if run.len() == 0 {
        0real
    } else {
        let front = run.drop_last();
        let t = magnitude(factor_table(sins, coss)[run.last() as int]);
        let d = magnitude(factor_derivative(sins, coss, run.last(), k));
        times(bend(sins, coss, front, k), t + d) + times(
            magnitude(product_derivative(sins, coss, front, k)),
            d,
        )
    }
}

/// The table of factors after a turn of the angle `k`, with the product `h` times a sine or
/// a cosine not multiplied out.
spec fn table_near(sins: Seq<real>, coss: Seq<real>, k: int, h: real) -> Seq<real> {
    factor_table(
        sins.update(k, sins[k] + times(h, coss[k])),
        coss.update(k, coss[k] - times(h, sins[k])),
    )
}

proof fn lemma_turned_factor(sins: Seq<real>, coss: Seq<real>, f: u32, k: int, h: real)
    requires
        sins.len() == coss.len(),
        f < 2 * sins.len() + 1,
        0 <= k < sins.len(),
    ensures
        table_near(sins, coss, k, h)[f as int] == factor_table(sins, coss)[f as int] + times(
            h,
            factor_derivative(sins, coss, f, k),
        ),
{
    lemma_ring(h, sins[k], -sins[k]);
    lemma_times(h, 0real);
    lemma_mul(h, 0real, 0real);
    assert(sins[k] + -sins[k] == 0real);
}

proof fn lemma_product_bends(sins: Seq<real>, coss: Seq<real>, run: Seq<u32>, k: int, h: real)
    requires
        sins.len() == coss.len(),
        factors_fit(run, sins.len()),
        0 <= k < sins.len(),
        -1real <= h <= 1real,
    ensures
        bend(sins, coss, run, k) >= 0real,
        magnitude(
            product_of(table_near(sins, coss, k, h), run) - product_of(
                factor_table(sins, coss),
                run,
            ) - times(h, product_derivative(sins, coss, run, k)),
        ) <= times(bend(sins, coss, run, k), times(h, h)),
    decreases run.len(),
{
    let table: Seq<real> = factor_table(sins, coss);
    let near: Seq<real> = table_near(sins, coss, k, h);
    lemma_square(h);
    if run.len() == 0 {
        lemma_times(h, 0real);
        lemma_mul(h, 0real, 0real);
        lemma_ring(0real, times(h, h), 0real);
        lemma_times(times(h, h), 0real);
        lemma_mul(times(h, h), 0real, 0real);
    } else {
        let front: Seq<u32> = run.drop_last();
        let f: u32 = run.last();
        assert forall|i: int| 0 <= i < front.len() implies (#[trigger] front[i]) < 2 * sins.len()
            + 1 by {
            assert(run[i] < 2 * sins.len() + 1);
        }
        assert(run[run.len() - 1] < 2 * sins.len() + 1);
        lemma_product_bends(sins, coss, front, k, h);
        lemma_turned_factor(sins, coss, f, k, h);
        let t: real = table[f as int];
        let d: real = factor_derivative(sins, coss, f, k);
        let (p, pp, q): (real, real, real) = (
            product_of(table, front),
            product_of(near, front),
            product_derivative(sins, coss, front, k),
        );
        let b: real = bend(sins, coss, front, k);
        lemma_one_more_factor(p, pp, q, t, d, h, b);
        lemma_times(pp, near[f as int]);
        lemma_times(p, t);
        lemma_times(q, t);
        lemma_times(p, d);
        lemma_nonnegative(b, magnitude(t) + magnitude(d));
        lemma_nonnegative(magnitude(q), magnitude(d));
    }
}

proof fn lemma_nonnegative(x: real, y: real)
    requires
        x >= 0real,
        y >= 0real,
    ensures
        times(x, y) >= 0real,
{
    reveal(times);
    lemma_sign_of_product(x, y);
}

/// The bends of the first `n` terms, added up.
spec fn bends(e: Expression<real>, sins: Seq<real>, coss: Seq<real>, k: int, n: nat) -> real
    decreases n,
{
    if n == 0 {
        0real
    } else {
        bends(e, sins, coss, k, (n - 1) as nat) + times(
            magnitude(e.coeffs[n - 1]),
            bend(sins, coss, e.runs[n - 1], k),
        )
    }
}

/// One more term, with the coefficient `c`.
proof fn lemma_one_more_term(
    y: real,
    c: real,
    p: real,
    pp: real,
    q: real,
    dd: real,
    h: real,
    b: real,
    bs: real,
)
    requires
        magnitude(pp - p - times(h, q)) <= times(b, times(h, h)),
        magnitude(y) <= times(bs, times(h, h)),
    ensures
        magnitude(
            y + times(h, dd) + times(c, pp) - times(c, p) - times(h, dd + times(c, q)),
        ) <= times(bs + times(magnitude(c), b), times(h, h)),
{
    let hq: real = times(h, q);
    let s: real = times(h, h);
    let mc: real = magnitude(c);
    lemma_ring_difference(c, pp, p, hq);
    lemma_ring(h, dd, times(c, q));
    lemma_ring(h, c, q);
    lemma_ring(c, h, q);
    assert(times(h, times(c, q)) == times(c, hq));
    lemma_sum_magnitude(y, times(c, pp - p - hq));
    lemma_times_magnitude(c, pp - p - hq);
    lemma_times_bound(mc, magnitude(pp - p - hq), times(b, s));
    lemma_ring(mc, b, s);
    lemma_ring(s, bs, times(mc, b));
    lemma_ring(s, bs + times(mc, b), 0real);
    lemma_ring(s, bs, 0real);
    lemma_ring(s, times(mc, b), 0real);
}

proof fn lemma_terms_bend(
    e: Expression<real>,
    sins: Seq<real>,
    coss: Seq<real>,
    k: int,
    h: real,
    n: nat,
)
    requires
        is_sound(e),
        sins.len() == e.num_params,
        coss.len() == e.num_params,
        0 <= k < e.num_params,
        -1real <= h <= 1real,
        n <= e.coeffs.len(),
    ensures
        magnitude(
            sum_of_terms(e, table_near(sins, coss, k, h), n) - sum_of_terms(
                e,
                factor_table(sins, coss),
                n,
            ) - times(h, derivative_of_terms(e, sins, coss, k, n)),
        ) <= times(bends(e, sins, coss, k, n), times(h, h)),
    decreases n,
{
    let near: Seq<real> = table_near(sins, coss, k, h);
    let table: Seq<real> = factor_table(sins, coss);
    if n == 0 {
        lemma_times(h, 0real);
        lemma_mul(h, 0real, 0real);
        lemma_ring(0real, times(h, h), 0real);
        lemma_times(times(h, h), 0real);
        lemma_mul(times(h, h), 0real, 0real);
    } else {
        let m: nat = (n - 1) as nat;
        let run: Seq<u32> = e.runs[n - 1];
        let c: real = e.coeffs[n - 1];
        assert(factors_fit(run, sins.len()));
        lemma_terms_bend(e, sins, coss, k, h, m);
        lemma_product_bends(sins, coss, run, k, h);
        let (p, pp, q): (real, real, real) = (
            product_of(table, run),
            product_of(near, run),
            product_derivative(sins, coss, run, k),
        );
        let dd: real = derivative_of_terms(e, sins, coss, k, m);
        let y: real = sum_of_terms(e, near, m) - sum_of_terms(e, table, m) - times(h, dd);
        lemma_one_more_term(
            y,
            c,
            p,
            pp,
            q,
            dd,
            h,
            bend(sins, coss, run, k),
            bends(e, sins, coss, k, m),
        );
        lemma_times(c, p);
        lemma_times(c, pp);
        lemma_times(c, q);
    }
}

/// The value of an expression after a small turn of the angle `k`: to first order in `h`,
/// its sine goes up by `h` times its cosine and its cosine down by `h` times its sine.
pub open spec fn value_after_turn(
    e: Expression<real>,
    sins: Seq<real>,
    coss: Seq<real>,
    k: int,
    h: real,
) -> real {
    value(
        e,
        sins.update(k, sins[k] + h * coss[k]),
        coss.update(k, coss[k] - h * sins[k]),
    )
}

proof fn lemma_near_slope(
    e: Expression<real>,
    sins: Seq<real>,
    coss: Seq<real>,
    k: int,
    h: real,
    slope: real,
)
    requires
        is_sound(e),
        sins.len() == e.num_params,
        coss.len() == e.num_params,
        0 <= k < e.num_params,
        -1real <= h <= 1real,
        slope == derivative_of_terms(e, sins, coss, k, e.coeffs.len()),
    ensures
        magnitude(
            value_after_turn(e, sins, coss, k, h) - value(e, sins, coss) - h * slope,
        ) <= bends(e, sins, coss, k, e.coeffs.len()) * (h * h),
{
    let b: real = bends(e, sins, coss, k, e.coeffs.len());
    lemma_terms_bend(e, sins, coss, k, h, e.coeffs.len());
    lemma_times(h, coss[k]);
    lemma_times(h, sins[k]);
    lemma_times(h, slope);
    lemma_times(h, h);
    lemma_times(b, times(h, h));
    lemma_value(e, sins, coss);
    lemma_value(
        e,
        sins.update(k, sins[k] + h * coss[k]),
        coss.update(k, coss[k] - h * sins[k]),
    );
}

proof fn lemma_gradient_found(e: Expression<real>, sins: Seq<real>, coss: Seq<real>)
    requires
        is_sound(e),
        sins.len() == e.num_params,
        coss.len() == e.num_params,
        e.tol > 0real || forall|i: int|
            0 <= i < e.num_params ==> #[trigger] sins[i] != 0real && coss[i] != 0real,
    ensures
        value_and_gradient(e, sins, coss) == (value(e, sins, coss), gradient(e, sins, coss)),
{
    if e.tol > 0real {
        lemma_value_and_gradient(e, sins, coss);
    } else {
        lemma_value_sum(e, factor_table(sins, coss), e.coeffs.len());
        lemma_exact_gradient(e, sins, coss);
        assert forall|i: int| 0 <= i < e.num_params implies #[trigger] coss[i] != 0real by {
            assert(sins[i] != 0real);
        }
        lemma_fast_gradient(e, sins, coss);
    }
}

/// Which way the gradient is found. Where some sine or some cosine is of a magnitude below
/// the tolerance, it is that of partial products; elsewhere that of logarithmic
/// derivatives.
pub proof fn lemma_way_to_the_gradient<S: Arith>(
    e: Expression<S>,
    sins: Seq<S>,
    coss: Seq<S>,
    k: int,
)
    requires
        0 <= k < e.num_params,
    ensures
        (exists|i: int| 0 <= i < sins.len() && (#[trigger] sins[i]).spec_falls_below(e.tol)) || (
        exists|i: int| 0 <= i < coss.len() && (#[trigger] coss[i]).spec_falls_below(e.tol))
            ==> value_and_gradient(e, sins, coss).1 == with_terms(
            Seq::new(e.num_params, |i: int| S::spec_zero()),
            e,
            sins,
            coss,
            e.coeffs.len(),
        ),
        (forall|i: int| 0 <= i < sins.len() ==> !(#[trigger] sins[i]).spec_falls_below(e.tol)) && (
        forall|i: int| 0 <= i < coss.len() ==> !(#[trigger] coss[i]).spec_falls_below(e.tol))
            ==> value_and_gradient(e, sins, coss).1[k] == log_derivative(e, sins, coss, k),
{
}

/// The gradient is the slope of the value, at all angles: after a turn of the angle `k` by
/// `h`, the value is what it was and `h` times component `k` of the gradient, up to a
/// multiple of the square of `h` that does not depend on `h`.
pub proof fn lemma_gradient_is_slope(
    e: Expression<real>,
    sins: Seq<real>,
    coss: Seq<real>,
    k: int,
) -> (b: real)
    requires
        is_sound(e),
        sins.len() == e.num_params,
        coss.len() == e.num_params,
        e.tol > 0real || forall|i: int|
            0 <= i < e.num_params ==> #[trigger] sins[i] != 0real && coss[i] != 0real,
        0 <= k < e.num_params,
    ensures
        value_and_gradient(e, sins, coss).0 == value(e, sins, coss),
        value_and_gradient(e, sins, coss).1.len() == e.num_params,
        forall|h: real|
            -1real <= h <= 1real ==> magnitude(
                #[trigger] value_after_turn(e, sins, coss, k, h) - value(e, sins, coss) - h
                    * value_and_gradient(e, sins, coss).1[k],
            ) <= b * (h * h),
{
    lemma_gradient_found(e, sins, coss);
    assert forall|h: real| -1real <= h <= 1real implies magnitude(
        #[trigger] value_after_turn(e, sins, coss, k, h) - value(e, sins, coss) - h
            * value_and_gradient(e, sins, coss).1[k],
    ) <= bends(e, sins, coss, k, e.coeffs.len()) * (h * h) by {
        lemma_near_slope(e, sins, coss, k, h, value_and_gradient(e, sins, coss).1[k]);
    }
    bends(e, sins, coss, k, e.coeffs.len())
}

/// Both ways to the gradient give that slope where they can be taken: partial products add
/// it to what is there and change nothing beyond the parameters, and logarithmic
/// derivatives give it where no sine and no cosine is zero.
pub proof fn lemma_both_ways_give_the_slope(
    e: Expression<real>,
    start: Seq<real>,
    sins: Seq<real>,
    coss: Seq<real>,
    k: int,
)
    requires
        is_sound(e),
        e.tol > 0real,
        sins.len() == e.num_params,
        coss.len() == e.num_params,
        start.len() >= e.num_params,
        0 <= k < start.len(),
    ensures
        with_terms(start, e, sins, coss, e.coeffs.len()).len() == start.len(),
        k >= e.num_params ==> with_terms(start, e, sins, coss, e.coeffs.len())[k] == start[k],
        k < e.num_params ==> with_terms(start, e, sins, coss, e.coeffs.len())[k] == start[k]
            + value_and_gradient(e, sins, coss).1[k],
        k < e.num_params && (forall|i: int|
            0 <= i < e.num_params ==> #[trigger] sins[i] != 0real) && (forall|i: int|
            0 <= i < e.num_params ==> #[trigger] coss[i] != 0real) ==> log_derivative(
            e,
            sins,
            coss,
            k,
        ) == value_and_gradient(e, sins, coss).1[k],
{
    lemma_value_and_gradient(e, sins, coss);
    lemma_gradient_is_added(start, e, sins, coss, e.coeffs.len());
    if (forall|i: int| 0 <= i < e.num_params ==> #[trigger] sins[i] != 0real) && (forall|i: int|
        0 <= i < e.num_params ==> #[trigger] coss[i] != 0real) {
        lemma_fast_gradient(e, sins, coss);
        if k < e.num_params {
            assert(fast_gradient(e, sins, coss)[k] == log_derivative(e, sins, coss, k));
        }
    }
}

} // verus!
