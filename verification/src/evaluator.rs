//! Evaluation of a propagated expression and of its gradient.
//!
//! An expression is a sum of terms, each a coefficient times a product of sines and
//! cosines. With `P` parameters, the factor `sin(theta_k)` has the index `k`, the
//! factor `cos(theta_k)` the index `P + 1 + k`, and `P` itself stands for the factor
//! one. A power is a repeated index.
//!
//! The order of the operations is part of what the functions promise: it decides how
//! a scalar type with rounding rounds.

use vstd::prelude::*;

use crate::expressions::lemma_runs_end_to_end;
use crate::scalar::{Arith, Scalar};

verus! {

/// Why an evaluator cannot be made or used.
#[derive(Clone, Copy, PartialEq, Eq, Structural, Debug)]
pub enum EvalError {
    /// There are not as many counts as coefficients.
    LengthMismatch,
    /// The counts do not add up to the number of factors.
    CountMismatch,
    /// A factor's index is not in the index space.
    FactorOutOfRange,
    /// There are not as many sines or cosines as parameters.
    AngleCount,
    /// The gradient has no place to go to.
    OutputShape,
}

/// What is said of an error.
pub open spec fn error_text(e: EvalError) -> Seq<char> {
    match e {
        EvalError::LengthMismatch => "coeffs and cnt must have equal length"@,
        EvalError::CountMismatch => "cnt does not add up to len(idx)"@,
        EvalError::FactorOutOfRange => "factor index out of range"@,
        EvalError::AngleCount => "sins/coss must have length num_params"@,
        EvalError::OutputShape => "out must be a writable float64 array of length num_params"@,
    }
}

impl EvalError {
    /// What is said of the error.
    pub fn message(&self) -> (r: &'static str)
        ensures
            r@ == error_text(*self),
    {
        match self {
            EvalError::LengthMismatch => "coeffs and cnt must have equal length",
            EvalError::CountMismatch => "cnt does not add up to len(idx)",
            EvalError::FactorOutOfRange => "factor index out of range",
            EvalError::AngleCount => "sins/coss must have length num_params",
            EvalError::OutputShape => "out must be a writable float64 array of length num_params",
        }
    }
}

/// An expression: its coefficients, the factors of each term, the number of
/// parameters, the length of the longest run, how many copies of the accumulator a
/// gradient is gathered in, and the magnitude below which a sine or a cosine counts as
/// zero.
#[verifier::ext_equal]
pub struct Expression<S> {
    pub coeffs: Seq<S>,
    pub runs: Seq<Seq<u32>>,
    pub num_params: nat,
    pub max_run: nat,
    pub copies: nat,
    pub tol: S,
}

// ---------------------------------------------------------------------
// Values
// ---------------------------------------------------------------------

/// The values of all factors: the sines, one, and the cosines.
pub open spec fn factor_table<S: Arith>(sins: Seq<S>, coss: Seq<S>) -> Seq<S> {
    sins.push(S::spec_one()) + coss
}

/// The product of every fourth factor from `lane` on, in the first `n` groups of
/// four.
pub open spec fn lane_product<S: Arith>(table: Seq<S>, run: Seq<u32>, lane: int, n: nat) -> S
    decreases n,
{
    if n == 0 {
        S::spec_one()
    } else {
        lane_product(table, run, lane, (n - 1) as nat).spec_times(
            table[run[4 * (n - 1) + lane] as int],
        )
    }
}

/// `start` times the factors from `from` up to `to`, one after the other.
pub open spec fn chain_product<S: Arith>(
    start: S,
    table: Seq<S>,
    run: Seq<u32>,
    from: int,
    to: int,
) -> S
    decreases to - from,
{
    if to <= from {
        start
    } else {
        chain_product(start, table, run, from, to - 1).spec_times(table[run[to - 1] as int])
    }
}

/// The product of the factors of one term, gathered in four lanes. What does not fill
/// a group of four goes into the first lane.
pub open spec fn lanes_product<S: Arith>(table: Seq<S>, run: Seq<u32>) -> S {
    let n = (run.len() / 4) as nat;
    let a = chain_product(
        lane_product(table, run, 0, n),
        table,
        run,
        (4 * n) as int,
        run.len() as int,
    );
    let b = lane_product(table, run, 1, n);
    let c = lane_product(table, run, 2, n);
    let d = lane_product(table, run, 3, n);
    a.spec_times(b).spec_times(c.spec_times(d))
}

/// The value of term `t`.
pub open spec fn term_value<S: Arith>(e: Expression<S>, table: Seq<S>, t: int) -> S {
    e.coeffs[t].spec_times(lanes_product(table, e.runs[t]))
}

/// `start` plus the values of the first `n` terms, one after the other.
pub open spec fn value_sum<S: Arith>(start: S, e: Expression<S>, table: Seq<S>, n: nat) -> S
    decreases n,
{
    if n == 0 {
        start
    } else {
        value_sum(start, e, table, (n - 1) as nat).spec_plus(term_value(e, table, n - 1))
    }
}

/// The value of an expression.
pub open spec fn value<S: Arith>(e: Expression<S>, sins: Seq<S>, coss: Seq<S>) -> S {
    value_sum(S::spec_empty_sum(), e, factor_table(sins, coss), e.coeffs.len())
}

// ---------------------------------------------------------------------
// The gradient by logarithmic derivatives
// ---------------------------------------------------------------------

/// Where factor `j` of a run is gathered: consecutive factors go to consecutive
/// copies of the accumulator, and what does not fill a group goes to the first copy.
pub open spec fn slot(run: Seq<u32>, width: nat, copies: nat, j: int) -> int {
    if j < run.len() - run.len() % copies {
        (j % copies as int) * width + run[j]
    } else {
        run[j] as int
    }
}

/// The accumulator with `term` added at the slots of the first `n` factors.
pub open spec fn scattered<S: Arith>(
    acc: Seq<S>,
    run: Seq<u32>,
    term: S,
    width: nat,
    copies: nat,
    n: nat,
) -> Seq<S>
    decreases n,
{
    if n == 0 {
        acc
    } else {
        let before = scattered(acc, run, term, width, copies, (n - 1) as nat);
        let k = slot(run, width, copies, n - 1);
        before.update(k, before[k].spec_plus(term))
    }
}

/// The accumulator after the first `n` terms.
pub open spec fn gathered<S: Arith>(e: Expression<S>, table: Seq<S>, n: nat) -> Seq<S>
    decreases n,
{
    let width = 2 * e.num_params + 1;
    if n == 0 {
        Seq::new(e.copies * width, |i: int| S::spec_zero())
    } else {
        scattered(
            gathered(e, table, (n - 1) as nat),
            e.runs[n - 1],
            term_value(e, table, n - 1),
            width,
            e.copies,
            e.runs[n - 1].len(),
        )
    }
}

/// What the first `n` copies of the accumulator hold at `k`, added up.
pub open spec fn copies_sum<S: Arith>(acc: Seq<S>, width: nat, k: int, n: nat) -> S
    decreases n,
{
    if n == 0 {
        S::spec_zero()
    } else {
        copies_sum(acc, width, k, (n - 1) as nat).spec_plus(acc[(n - 1) * width + k])
    }
}

/// Component `k` of the gradient: each sine brings the cotangent, each cosine minus
/// the tangent of its angle.
pub open spec fn log_derivative<S: Arith>(
    e: Expression<S>,
    sins: Seq<S>,
    coss: Seq<S>,
    k: int,
) -> S {
    let acc = gathered(e, factor_table(sins, coss), e.coeffs.len());
    let width = 2 * e.num_params + 1;
    coss[k].spec_over(sins[k]).spec_times(copies_sum(acc, width, k, e.copies)).spec_minus(
        sins[k].spec_over(coss[k]).spec_times(
            copies_sum(acc, width, e.num_params + 1 + k, e.copies),
        ),
    )
}

// ---------------------------------------------------------------------
// The gradient by partial products
// ---------------------------------------------------------------------

/// The product of the factors before `j`.
pub open spec fn prefix_product<S: Arith>(table: Seq<S>, run: Seq<u32>, j: int) -> S {
    chain_product(S::spec_one(), table, run, 0, j)
}

/// The product of the factors from `j` on, gathered from the end.
pub open spec fn suffix_product<S: Arith>(table: Seq<S>, run: Seq<u32>, j: int) -> S
    decreases run.len() - j,
{
    if j < 0 || j >= run.len() {
        S::spec_one()
    } else {
        suffix_product(table, run, j + 1).spec_times(table[run[j] as int])
    }
}

/// A coefficient times all factors of a run but factor `j`.
pub open spec fn product_without<S: Arith>(c: S, table: Seq<S>, run: Seq<u32>, j: int) -> S {
    c.spec_times(prefix_product(table, run, j)).spec_times(suffix_product(table, run, j + 1))
}

/// The gradient with the derivative of one factor added, where `rest` is the product
/// of all others.
pub open spec fn with_factor<S: Arith>(
    grad: Seq<S>,
    sins: Seq<S>,
    coss: Seq<S>,
    entry: u32,
    rest: S,
) -> Seq<S> {
    let p = sins.len();
    if entry < p {
        grad.update(
            entry as int,
            grad[entry as int].spec_plus(rest.spec_times(coss[entry as int])),
        )
    } else if entry > p {
        let k = entry - (p + 1);
        grad.update(k, grad[k].spec_minus(rest.spec_times(sins[k])))
    } else {
        grad
    }
}

/// The gradient with the derivatives of the factors of one term from `j` on added,
/// the last factor first.
pub open spec fn with_factors<S: Arith>(
    grad: Seq<S>,
    sins: Seq<S>,
    coss: Seq<S>,
    c: S,
    run: Seq<u32>,
    j: int,
) -> Seq<S>
    decreases run.len() - j,
{
    if j < 0 || j >= run.len() {
        grad
    } else {
        with_factor(
            with_factors(grad, sins, coss, c, run, j + 1),
            sins,
            coss,
            run[j],
            product_without(c, factor_table(sins, coss), run, j),
        )
    }
}

/// The gradient with the derivatives of the first `n` terms added.
pub open spec fn with_terms<S: Arith>(
    grad: Seq<S>,
    e: Expression<S>,
    sins: Seq<S>,
    coss: Seq<S>,
    n: nat,
) -> Seq<S>
    decreases n,
{
    if n == 0 {
        grad
    } else {
        with_factors(
            with_terms(grad, e, sins, coss, (n - 1) as nat),
            sins,
            coss,
            e.coeffs[n - 1],
            e.runs[n - 1],
            0,
        )
    }
}

/// `start` plus the values of the first `n` terms, each gathered in one chain.
pub open spec fn chain_value_sum<S: Arith>(start: S, e: Expression<S>, table: Seq<S>, n: nat) -> S
    decreases n,
{
    if n == 0 {
        start
    } else {
        chain_value_sum(start, e, table, (n - 1) as nat).spec_plus(
            e.coeffs[n - 1].spec_times(
                prefix_product(table, e.runs[n - 1], e.runs[n - 1].len() as int),
            ),
        )
    }
}

// ---------------------------------------------------------------------
// The evaluator
// ---------------------------------------------------------------------

/// The sum of the first `n` counts.
pub open spec fn counts_sum(cnt: Seq<u32>, n: nat) -> nat
    decreases n,
{
    if n == 0 {
        0
    } else {
        counts_sum(cnt, (n - 1) as nat) + cnt[n - 1] as nat
    }
}

/// The factors of each term, where term `t` has the next `cnt[t]` of them.
pub open spec fn runs_of(idx: Seq<u32>, cnt: Seq<u32>) -> Seq<Seq<u32>> {
    Seq::new(
        cnt.len(),
        |t: int|
            idx.subrange(counts_sum(cnt, t as nat) as int, counts_sum(cnt, (t + 1) as nat) as int),
    )
}

/// The largest of the first `n` counts, zero where there is none.
pub open spec fn max_count(cnt: Seq<u32>, n: nat) -> nat
    decreases n,
{
    if n == 0 {
        0
    } else {
        let before = max_count(cnt, (n - 1) as nat);
        if cnt[n - 1] > before {
            cnt[n - 1] as nat
        } else {
            before
        }
    }
}

/// Whether `n` is the length of the longest run, zero where there is no run.
pub open spec fn is_longest(runs: Seq<Seq<u32>>, n: nat) -> bool {
    &&& forall|t: int| 0 <= t < runs.len() ==> (#[trigger] runs[t]).len() <= n
    &&& n == 0 || exists|t: int| 0 <= t < runs.len() && (#[trigger] runs[t]).len() == n
}

proof fn lemma_max_count(cnt: Seq<u32>, n: nat)
    requires
        n <= cnt.len(),
    ensures
        forall|t: int| 0 <= t < n ==> #[trigger] cnt[t] <= max_count(cnt, n),
        max_count(cnt, n) == 0 || exists|t: int|
            0 <= t < n && #[trigger] cnt[t] == max_count(cnt, n),
    decreases n,
{
    if n > 0 {
        lemma_max_count(cnt, (n - 1) as nat);
        assert(cnt[n - 1] <= max_count(cnt, n));
    }
}

/// How many copies of the accumulator are kept: four, two or one, as many as fit into
/// 16 KiB of eight-byte slots.
pub open spec fn copies_for(num_params: nat) -> nat {
    let bytes = (2 * num_params + 1) * 8;
    if 4 * bytes <= 16 * 1024 {
        4
    } else if 2 * bytes <= 16 * 1024 {
        2
    } else {
        1
    }
}

/// Whether every factor is in the index space of `num_params` parameters.
pub open spec fn factors_fit(idx: Seq<u32>, num_params: nat) -> bool {
    forall|i: int| 0 <= i < idx.len() ==> (#[trigger] idx[i]) < 2 * num_params + 1
}

/// Sums of counts grow.
pub proof fn lemma_counts_grow(cnt: Seq<u32>, m: nat, n: nat)
    requires
        m <= n,
    ensures
        counts_sum(cnt, m) <= counts_sum(cnt, n),
    decreases n,
{
    if m < n {
        lemma_counts_grow(cnt, m, (n - 1) as nat);
    }
}

/// An expression made ready for evaluation.
pub struct Evaluator<S: Scalar> {
    coeffs: Vec<S>,
    idx: Vec<u32>,
    /// Start of each term's run in `idx`, with a closing entry.
    off: Vec<usize>,
    num_params: usize,
    /// The length of the longest run.
    max_run: usize,
    /// How many copies of the accumulator a gradient is gathered in.
    acc_copies: usize,
    tol: S,
}

impl<S: Scalar> View for Evaluator<S> {
    type V = Expression<S>;

    closed spec fn view(&self) -> Expression<S> {
        Expression {
            coeffs: self.coeffs@,
            runs: Seq::new(
                self.coeffs@.len(),
                |t: int| self.idx@.subrange(self.off@[t] as int, self.off@[t + 1] as int),
            ),
            num_params: self.num_params as nat,
            max_run: self.max_run as nat,
            copies: self.acc_copies as nat,
            tol: self.tol,
        }
    }
}

/// Adds `term` at the accumulator slot of every factor in `run`, spread over `C`
/// copies of the accumulator.
pub fn scatter<S: Scalar, const C: usize>(run: &[u32], term: S, acc: &mut Vec<S>, width: usize)
    requires
        C > 0,
        old(acc)@.len() == C * width,
        forall|j: int| 0 <= j < run@.len() ==> (#[trigger] run@[j]) < width,
    ensures
        final(acc)@.len() == old(acc)@.len(),
        final(acc)@ == scattered(
            old(acc)@,
            run@,
            term,
            width as nat,
            C as nat,
            run@.len(),
        ),
{
    let n: usize = run.len();
    let total: usize = acc.len();
    proof {
        vstd::arithmetic::div_mod::lemma_mod_decreases(n as nat, C as nat);
    }
    let whole: usize = n - n % C;
    let mut j: usize = 0;
    while j < n
        invariant
            C > 0,
            j <= n == run@.len(),
            whole == n - n % C,
            acc@.len() == C * width == total,
            forall|j: int| 0 <= j < run@.len() ==> (#[trigger] run@[j]) < width,
            acc@ == scattered(old(acc)@, run@, term, width as nat, C as nat, j as nat),
        decreases n - j,
    {
        let entry: usize = run[j] as usize;
        let copy: usize = if j < whole {
            j % C
        } else {
            0
        };
        assert(copy * width + entry < C * width && copy * width <= C * width) by (nonlinear_arith)
            requires
                0 <= copy < C,
                0 <= entry < width,
        ;
        assert(0 * width == 0) by (nonlinear_arith);
        let k: usize = copy * width + entry;
        let sum: S = acc[k].plus(term);
        acc[k] = sum;
        j += 1;
    }
}

impl<S: Scalar> Evaluator<S> {
    /// Whether the run of term `t` lies in `idx` and is no longer than the longest.
    spec fn run_is_sound(self, t: int) -> bool {
        &&& self.off@[t] <= self.off@[t + 1] <= self.idx@.len()
        &&& self.off@[t + 1] - self.off@[t] <= self.max_run
    }

    #[verifier::type_invariant]
    spec fn is_well_formed(self) -> bool {
        &&& self.off@.len() == self.coeffs@.len() + 1
        &&& self.off@[0] == 0
        &&& self.off@[self.coeffs@.len() as int] == self.idx@.len()
        &&& forall|t: int| 0 <= t < self.coeffs@.len() ==> #[trigger] self.run_is_sound(t)
        &&& is_longest(self@.runs, self.max_run as nat)
        &&& factors_fit(self.idx@, self.num_params as nat)
        &&& self.acc_copies == copies_for(self.num_params as nat)
        &&& 32 * (2 * self.num_params + 1) <= usize::MAX
    }

    /// `[sin(theta_0), .., 1, cos(theta_0), ..]`, the table that factors are read from.
    fn table(&self, sins: &Vec<S>, coss: &Vec<S>) -> (r: Vec<S>)
        ensures
            r@ == factor_table(sins@, coss@),
    {
        let mut table: Vec<S> = Vec::new();
        let mut i: usize = 0;
        while i < sins.len()
            invariant
                i <= sins@.len(),
                table@ == sins@.take(i as int),
            decreases sins@.len() - i,
        {
            table.push(sins[i]);
            i += 1;
            assert(table@ =~= sins@.take(i as int));
        }
        assert(sins@.take(sins@.len() as int) =~= sins@);
        table.push(S::one());
        let mut j: usize = 0;
        assert(table@ =~= sins@.push(S::spec_one()) + coss@.take(0));
        while j < coss.len()
            invariant
                j <= coss@.len(),
                table@ == sins@.push(S::spec_one()) + coss@.take(j as int),
            decreases coss@.len() - j,
        {
            table.push(coss[j]);
            j += 1;
            assert(table@ =~= sins@.push(S::spec_one()) + coss@.take(j as int));
        }
        assert(coss@.take(coss@.len() as int) =~= coss@);
        table
    }

    /// The product of the factors from `start` to `end`, in four lanes.
    fn term_product(&self, table: &Vec<S>, start: usize, end: usize) -> (r: S)
        requires
            start <= end <= self.idx@.len(),
            table@.len() == 2 * self.num_params + 1,
        ensures
            r == lanes_product(table@, self.idx@.subrange(start as int, end as int)),
    {
        proof {
            use_type_invariant(self);
        }
        let ghost run: Seq<u32> = self.idx@.subrange(start as int, end as int);
        let groups: usize = (end - start) / 4;
        let mut a: S = S::one();
        let mut b: S = S::one();
        let mut c: S = S::one();
        let mut d: S = S::one();
        let mut n: usize = 0;
        while n < groups
            invariant
                n <= groups == (end - start) / 4,
                start <= end <= self.idx@.len(),
                table@.len() == 2 * self.num_params + 1,
                factors_fit(self.idx@, self.num_params as nat),
                run == self.idx@.subrange(start as int, end as int),
                a == lane_product(table@, run, 0, n as nat),
                b == lane_product(table@, run, 1, n as nat),
                c == lane_product(table@, run, 2, n as nat),
                d == lane_product(table@, run, 3, n as nat),
            decreases groups - n,
        {
            let at: usize = start + 4 * n;
            assert(run[4 * n + 0] == self.idx@[at as int]);
            assert(run[4 * n + 1] == self.idx@[at + 1]);
            assert(run[4 * n + 2] == self.idx@[at + 2]);
            assert(run[4 * n + 3] == self.idx@[at + 3]);
            a = a.times(table[self.idx[at] as usize]);
            b = b.times(table[self.idx[at + 1] as usize]);
            c = c.times(table[self.idx[at + 2] as usize]);
            d = d.times(table[self.idx[at + 3] as usize]);
            n += 1;
        }
        let ghost first: S = a;
        let mut i: usize = start + 4 * groups;
        while i < end
            invariant
                start + 4 * groups <= i <= end <= self.idx@.len(),
                table@.len() == 2 * self.num_params + 1,
                factors_fit(self.idx@, self.num_params as nat),
                run == self.idx@.subrange(start as int, end as int),
                a == chain_product(first, table@, run, 4 * groups as int, i - start),
            decreases end - i,
        {
            assert(run[i - start] == self.idx@[i as int]);
            a = a.times(table[self.idx[i] as usize]);
            i += 1;
        }
        a.times(b).times(c.times(d))
    }

    /// Gradient via the logarithmic derivative: every factor on parameter `k`
    /// contributes its term times the cotangent, or minus the tangent, of the angle.
    /// So the factors only gather the values of their terms. Meant for angles away
    /// from the zeros of sine and cosine.
    #[verifier::rlimit(50)]
    pub fn grad_fast(&self, sins: &Vec<S>, coss: &Vec<S>, grad: &mut Vec<S>) -> (r: S)
        requires
            sins@.len() == self@.num_params,
            coss@.len() == self@.num_params,
            old(grad)@.len() >= self@.num_params,
        ensures
            r == value_sum(
                S::spec_zero(),
                self@,
                factor_table(sins@, coss@),
                self@.coeffs.len(),
            ),
            final(grad)@ == Seq::new(
                old(grad)@.len(),
                |k: int|
                    if k < self@.num_params {
                        log_derivative(self@, sins@, coss@, k)
                    } else {
                        old(grad)@[k]
                    },
            ),
    {
        proof {
            use_type_invariant(self);
        }
        let ghost e: Expression<S> = self@;
        let p: usize = self.num_params;
        let table: Vec<S> = self.table(sins, coss);
        let width: usize = 2 * p + 1;
        let copies: usize = self.acc_copies;
        assert(0 < copies <= 4);
        assert(copies * width <= 4 * width) by (nonlinear_arith)
            requires
                copies <= 4,
        ;
        let mut acc: Vec<S> = zeros::<S>(copies * width);
        let mut value: S = S::zero();
        let mut t: usize = 0;
        while t < self.coeffs.len()
            invariant
                self.is_well_formed(),
                e == self@,
                t <= self.coeffs@.len(),
                p == self.num_params,
                width == 2 * p + 1,
                copies == self.acc_copies == e.copies,
                copies == 4 || copies == 2 || copies == 1,
                table@ == factor_table(sins@, coss@),
                table@.len() == width,
                acc@.len() == copies * width,
                acc@ == gathered(e, table@, t as nat),
                value == value_sum(S::spec_zero(), e, table@, t as nat),
            decreases self.coeffs@.len() - t,
        {
            let start: usize = self.off[t];
            let end: usize = self.off[t + 1];
            assert(start <= end <= self.idx@.len()) by {
                assert(self.run_is_sound(t as int));
            }
            assert(e.runs[t as int] == self.idx@.subrange(start as int, end as int));
            let term: S = self.coeffs[t].times(self.term_product(&table, start, end));
            value = value.plus(term);
            let run: &[u32] = vstd::slice::slice_subrange(self.idx.as_slice(), start, end);
            assert(run@ == e.runs[t as int]);
            assert forall|j: int| 0 <= j < run@.len() implies (#[trigger] run@[j]) < width by {
                assert(run@[j] == self.idx@[start + j]);
            }
            match copies {
                4 => scatter::<S, 4>(run, term, &mut acc, width),
                2 => scatter::<S, 2>(run, term, &mut acc, width),
                _ => scatter::<S, 1>(run, term, &mut acc, width),
            }
            t += 1;
        }
        let ghost before: Seq<S> = grad@;
        let mut k: usize = 0;
        while k < p
            invariant
                self.is_well_formed(),
                e == self@,
                k <= p == self.num_params == sins@.len() == coss@.len(),
                width == 2 * p + 1,
                copies == self.acc_copies == e.copies,
                copies <= 4,
                32 * width <= usize::MAX,
                acc@.len() == copies * width,
                acc@ == gathered(e, factor_table(sins@, coss@), e.coeffs.len()),
                before.len() >= p,
                grad@ == Seq::new(
                    before.len(),
                    |i: int|
                        if i < k {
                            log_derivative(e, sins@, coss@, i)
                        } else {
                            before[i]
                        },
                ),
            decreases p - k,
        {
            let mut sin_total: S = S::zero();
            let mut cos_total: S = S::zero();
            let mut c: usize = 0;
            while c < copies
                invariant
                    c <= copies <= 4,
                    k < p,
                    width == 2 * p + 1,
                    32 * width <= usize::MAX,
                    acc@.len() == copies * width,
                    sin_total == copies_sum(acc@, width as nat, k as int, c as nat),
                    cos_total == copies_sum(acc@, width as nat, p + 1 + k as int, c as nat),
                decreases copies - c,
            {
                assert(c * width + width <= copies * width && c * width <= 3 * width)
                    by (nonlinear_arith)
                    requires
                        c < copies <= 4,
                ;
                sin_total = sin_total.plus(acc[c * width + k]);
                cos_total = cos_total.plus(acc[c * width + p + 1 + k]);
                c += 1;
            }
            let slope: S = coss[k].over(sins[k]).times(sin_total).minus(
                sins[k].over(coss[k]).times(cos_total),
            );
            grad[k] = slope;
            k += 1;
            assert(grad@ =~= Seq::new(
                before.len(),
                |i: int|
                    if i < k {
                        log_derivative(e, sins@, coss@, i)
                    } else {
                        before[i]
                    },
            ));
        }
        value
    }

    /// Gradient without a division: for each term, the partial products from the
    /// front are recorded, and then met by those from the back, which gives the
    /// product of all other factors for every factor. What is found is added to
    /// `grad`.
    #[verifier::rlimit(50)]
    pub fn grad_exact(&self, sins: &Vec<S>, coss: &Vec<S>, grad: &mut Vec<S>) -> (r: S)
        requires
            sins@.len() == self@.num_params,
            coss@.len() == self@.num_params,
            old(grad)@.len() >= self@.num_params,
        ensures
            r == chain_value_sum(
                S::spec_zero(),
                self@,
                factor_table(sins@, coss@),
                self@.coeffs.len(),
            ),
            final(grad)@ == with_terms(
                old(grad)@,
                self@,
                sins@,
                coss@,
                self@.coeffs.len(),
            ),
            final(grad)@.len() == old(grad)@.len(),
    {
        proof {
            use_type_invariant(self);
        }
        let ghost e: Expression<S> = self@;
        let p: usize = self.num_params;
        let table: Vec<S> = self.table(sins, coss);
        let mut prefix: Vec<S> = zeros::<S>(self.max_run);
        let mut value: S = S::zero();
        let mut t: usize = 0;
        while t < self.coeffs.len()
            invariant
                self.is_well_formed(),
                e == self@,
                t <= self.coeffs@.len(),
                p == self.num_params == sins@.len() == coss@.len(),
                table@ == factor_table(sins@, coss@),
                table@.len() == 2 * p + 1,
                prefix@.len() == self.max_run,
                grad@.len() == old(grad)@.len() >= p,
                grad@ == with_terms(old(grad)@, e, sins@, coss@, t as nat),
                value == chain_value_sum(S::spec_zero(), e, table@, t as nat),
            decreases self.coeffs@.len() - t,
        {
            let start: usize = self.off[t];
            let end: usize = self.off[t + 1];
            assert(start <= end <= self.idx@.len() && end - start <= self.max_run) by {
                assert(self.run_is_sound(t as int));
            }
            let ghost run: Seq<u32> = e.runs[t as int];
            assert(run == self.idx@.subrange(start as int, end as int));
            let n: usize = end - start;
            let coeff: S = self.coeffs[t];
            let mut running: S = S::one();
            let mut j: usize = 0;
            while j < n
                invariant
                    j <= n == end - start == run.len(),
                    start <= end <= self.idx@.len(),
                    n <= prefix@.len() == self.max_run,
                    run == self.idx@.subrange(start as int, end as int),
                    factors_fit(self.idx@, p as nat),
                    table@.len() == 2 * p + 1,
                    running == prefix_product(table@, run, j as int),
                    forall|i: int|
                        0 <= i < j ==> #[trigger] prefix@[i] == prefix_product(table@, run, i),
                decreases n - j,
            {
                prefix[j] = running;
                assert(run[j as int] == self.idx@[start + j]);
                running = running.times(table[self.idx[start + j] as usize]);
                j += 1;
            }
            value = value.plus(coeff.times(running));
            let ghost mid: Seq<S> = grad@;
            let mut suffix: S = S::one();
            while j > 0
                invariant
                    j <= n == end - start == run.len(),
                    start <= end <= self.idx@.len(),
                    n <= prefix@.len(),
                    run == self.idx@.subrange(start as int, end as int),
                    factors_fit(self.idx@, p as nat),
                    p == sins@.len() == coss@.len(),
                    table@ == factor_table(sins@, coss@),
                    table@.len() == 2 * p + 1,
                    forall|i: int|
                        0 <= i < n ==> #[trigger] prefix@[i] == prefix_product(table@, run, i),
                    suffix == suffix_product(table@, run, j as int),
                    grad@.len() == mid.len() == old(grad)@.len() >= p,
                    grad@ == with_factors(mid, sins@, coss@, coeff, run, j as int),
                decreases j,
            {
                j -= 1;
                assert(run[j as int] == self.idx@[start + j]);
                let entry: usize = self.idx[start + j] as usize;
                let excluding: S = coeff.times(prefix[j]).times(suffix);
                assert(excluding == product_without(coeff, table@, run, j as int));
                if entry < p {
                    let slope: S = grad[entry].plus(excluding.times(coss[entry]));
                    grad[entry] = slope;
                } else if entry > p {
                    let k: usize = entry - (p + 1);
                    let slope: S = grad[k].minus(excluding.times(sins[k]));
                    grad[k] = slope;
                }
                suffix = suffix.times(table[entry]);
            }
            t += 1;
        }
        value
    }

    /// Makes an expression ready. Term `t` has the coefficient `coeffs[t]` and the next
    /// `cnt[t]` factors of `idx`.
    #[verifier::rlimit(50)]
    pub fn new(coeffs: Vec<S>, idx: Vec<u32>, cnt: Vec<u32>, num_params: usize, tol: S) -> (r:
        Result<Self, EvalError>)
        requires
            cnt@.len() == coeffs@.len() && counts_sum(cnt@, cnt@.len()) == idx@.len() ==> 2
                * num_params + 1 <= usize::MAX && (factors_fit(idx@, num_params as nat) ==> 32 * (2
                * num_params + 1) <= usize::MAX),
        ensures
            r matches Err(err) ==> err == EvalError::LengthMismatch || err
                == EvalError::CountMismatch || err == EvalError::FactorOutOfRange,
            r matches Err(EvalError::LengthMismatch) <==> cnt@.len() != coeffs@.len(),
            r matches Err(EvalError::CountMismatch) <==> cnt@.len() == coeffs@.len() && counts_sum(
                cnt@,
                cnt@.len(),
            ) != idx@.len(),
            r matches Err(EvalError::FactorOutOfRange) <==> cnt@.len() == coeffs@.len()
                && counts_sum(cnt@, cnt@.len()) == idx@.len() && !factors_fit(
                idx@,
                num_params as nat,
            ),
            r matches Ok(evaluator) ==> evaluator@ == (Expression {
                coeffs: coeffs@,
                runs: runs_of(idx@, cnt@),
                num_params: num_params as nat,
                max_run: max_count(cnt@, cnt@.len()),
                copies: copies_for(num_params as nat),
                tol,
            }),
            r matches Ok(evaluator) ==> evaluator@.runs.flatten() == idx@,
            r matches Ok(evaluator) ==> forall|t: int|
                0 <= t < cnt@.len() ==> (#[trigger] evaluator@.runs[t]).len() == cnt@[t],
    {
        if cnt.len() != coeffs.len() {
            return Err(EvalError::LengthMismatch);
        }
        let factors: usize = idx.len();
        let (off, max_run): (Vec<usize>, usize) = match run_offsets(&cnt) {
            Some(found) => found,
            None => return Err(EvalError::CountMismatch),
        };
        if off[cnt.len()] != factors {
            return Err(EvalError::CountMismatch);
        }
        let limit: usize = 2 * num_params + 1;
        if !all_below(&idx, limit) {
            return Err(EvalError::FactorOutOfRange);
        }
        let bytes: usize = limit * 8;
        let acc_copies: usize = if 4 * bytes <= 16 * 1024 {
            4
        } else if 2 * bytes <= 16 * 1024 {
            2
        } else {
            1
        };
        let ghost made: Evaluator<S> = Evaluator {
            coeffs,
            idx,
            off,
            num_params,
            max_run,
            acc_copies,
            tol,
        };
        proof {
            assert forall|t: int| 0 <= t < coeffs@.len() implies #[trigger] made.run_is_sound(t) by {
                lemma_counts_grow(cnt@, (t + 1) as nat, cnt@.len());
                assert(off@[t] == counts_sum(cnt@, t as nat));
                assert(off@[t + 1] == counts_sum(cnt@, (t + 1) as nat));
                assert(cnt@[t] <= max_run);
            }
            assert forall|t: int| 0 <= t < coeffs@.len() implies (#[trigger] made@.runs[t]).len()
                == cnt@[t] by {
                assert(made.run_is_sound(t));
                assert(off@[t] == counts_sum(cnt@, t as nat));
                assert(off@[t + 1] == counts_sum(cnt@, (t + 1) as nat));
            }
            assert(is_longest(made@.runs, max_run as nat)) by {
                if max_run > 0 {
                    let t: int = choose|t: int|
                        0 <= t < cnt@.len() && #[trigger] cnt@[t] == max_run;
                    assert(made@.runs[t].len() == max_run);
                }
            }
        }
        let r: Evaluator<S> = Evaluator { coeffs, idx, off, num_params, max_run, acc_copies, tol };
        proof {
            assert forall|t: int| 0 <= t < coeffs@.len() implies #[trigger] r@.runs[t] == runs_of(
                idx@,
                cnt@,
            )[t] by {
                assert(off@[t] == counts_sum(cnt@, t as nat));
                assert(off@[t + 1] == counts_sum(cnt@, (t + 1) as nat));
            }
            assert(r@.runs =~= runs_of(idx@, cnt@));
            lemma_runs_end_to_end(idx@, cnt@);
        }
        Ok(r)
    }

    /// The sines or cosines, where there are as many as parameters.
    pub fn read_angles(&self, values: Vec<S>) -> (r: Result<Vec<S>, EvalError>)
        ensures
            r == (if values@.len() == self@.num_params {
                Ok::<Vec<S>, EvalError>(values)
            } else {
                Err::<Vec<S>, EvalError>(EvalError::AngleCount)
            }),
    {
        if values.len() != self.num_params {
            return Err(EvalError::AngleCount);
        }
        Ok(values)
    }

    /// The value of the expression at the given sines and cosines.
    pub fn eval(&self, sins: Vec<S>, coss: Vec<S>) -> (r: Result<S, EvalError>)
        ensures
            r == (if sins@.len() == self@.num_params && coss@.len() == self@.num_params {
                Ok::<S, EvalError>(value(self@, sins@, coss@))
            } else {
                Err::<S, EvalError>(EvalError::AngleCount)
            }),
    {
        let sins: Vec<S> = match self.read_angles(sins) {
            Ok(values) => values,
            Err(e) => return Err(e),
        };
        let coss: Vec<S> = match self.read_angles(coss) {
            Ok(values) => values,
            Err(e) => return Err(e),
        };
        proof {
            use_type_invariant(self);
        }
        let ghost e: Expression<S> = self@;
        let table: Vec<S> = self.table(&sins, &coss);
        let mut total: S = S::empty_sum();
        let mut t: usize = 0;
        while t < self.coeffs.len()
            invariant
                self.is_well_formed(),
                e == self@,
                t <= self.coeffs@.len(),
                table@ == factor_table(sins@, coss@),
                table@.len() == 2 * self.num_params + 1,
                total == value_sum(S::spec_empty_sum(), e, table@, t as nat),
            decreases self.coeffs@.len() - t,
        {
            let start: usize = self.off[t];
            let end: usize = self.off[t + 1];
            assert(start <= end <= self.idx@.len()) by {
                assert(self.run_is_sound(t as int));
            }
            assert(e.runs[t as int] == self.idx@.subrange(start as int, end as int));
            total = total.plus(self.coeffs[t].times(self.term_product(&table, start, end)));
            t += 1;
        }
        Ok(total)
    }

    /// Whether some sine or cosine is of a magnitude below the tolerance.
    fn is_singular(&self, values: &Vec<S>) -> (r: bool)
        ensures
            r == has_small(values@, self@.tol),
    {
        let mut i: usize = 0;
        while i < values.len()
            invariant
                i <= values@.len(),
                forall|j: int| 0 <= j < i ==> !(#[trigger] values@[j]).spec_falls_below(self.tol),
            decreases values@.len() - i,
        {
            if values[i].falls_below(self.tol) {
                return true;
            }
            i += 1;
        }
        false
    }

    /// The value of the expression and its gradient, for an output with room for
    /// `out_len` numbers. Where a sine or a cosine is close to zero, the gradient is
    /// found by partial products; elsewhere by logarithmic derivatives.
    pub fn eval_and_grad(&self, sins: Vec<S>, coss: Vec<S>, out_len: usize, readonly: bool) -> (r:
        Result<(S, Vec<S>), EvalError>)
        ensures
            sins@.len() != self@.num_params || coss@.len() != self@.num_params ==> r == Err::<
                (S, Vec<S>),
                EvalError,
            >(EvalError::AngleCount),
            sins@.len() == self@.num_params && coss@.len() == self@.num_params && (out_len
                != self@.num_params || readonly) ==> r == Err::<(S, Vec<S>), EvalError>(
                EvalError::OutputShape,
            ),
            sins@.len() == self@.num_params && coss@.len() == self@.num_params && out_len
                == self@.num_params && !readonly ==> (r matches Ok((val, grad)) && (val, grad@)
                == value_and_gradient(self@, sins@, coss@)),
    {
        let sins: Vec<S> = match self.read_angles(sins) {
            Ok(values) => values,
            Err(e) => return Err(e),
        };
        let coss: Vec<S> = match self.read_angles(coss) {
            Ok(values) => values,
            Err(e) => return Err(e),
        };
        if out_len != self.num_params || readonly {
            return Err(EvalError::OutputShape);
        }
        let mut grad: Vec<S> = zeros::<S>(self.num_params);
        let singular: bool = self.is_singular(&sins) || self.is_singular(&coss);
        if singular {
            let val: S = self.grad_exact(&sins, &coss, &mut grad);
            Ok((val, grad))
        } else {
            let val: S = self.grad_fast(&sins, &coss, &mut grad);
            assert(grad@ =~= fast_gradient(self@, sins@, coss@));
            Ok((val, grad))
        }
    }
}

/// Whether some number is of a magnitude below `tol`.
pub open spec fn has_small<S: Arith>(values: Seq<S>, tol: S) -> bool {
    exists|j: int| 0 <= j < values.len() && (#[trigger] values[j]).spec_falls_below(tol)
}

/// The gradient by logarithmic derivatives.
pub open spec fn fast_gradient<S: Arith>(e: Expression<S>, sins: Seq<S>, coss: Seq<S>) -> Seq<S> {
    Seq::new(e.num_params, |k: int| log_derivative(e, sins, coss, k))
}

/// The gradient by partial products.
pub open spec fn exact_gradient<S: Arith>(e: Expression<S>, sins: Seq<S>, coss: Seq<S>) -> Seq<S> {
    with_terms(
        Seq::new(e.num_params, |k: int| S::spec_zero()),
        e,
        sins,
        coss,
        e.coeffs.len(),
    )
}

/// The value of an expression and its gradient.
pub open spec fn value_and_gradient<S: Arith>(
    e: Expression<S>,
    sins: Seq<S>,
    coss: Seq<S>,
) -> (S, Seq<S>) {
    let table = factor_table(sins, coss);
    if has_small(sins, e.tol) || has_small(coss, e.tol) {
        (
            chain_value_sum(S::spec_zero(), e, table, e.coeffs.len()),
            exact_gradient(e, sins, coss),
        )
    } else {
        (value_sum(S::spec_zero(), e, table, e.coeffs.len()), fast_gradient(e, sins, coss))
    }
}

/// Where each run starts, with a closing entry, and the length of the longest; nothing
/// where the counts add up to more than an index can hold.
fn run_offsets(cnt: &Vec<u32>) -> (r: Option<(Vec<usize>, usize)>)
    ensures
        r is None ==> counts_sum(cnt@, cnt@.len()) > usize::MAX,
        r matches Some((off, max_run)) ==> {
            &&& off@.len() == cnt@.len() + 1
            &&& forall|t: int|
                0 <= t <= cnt@.len() ==> #[trigger] off@[t] == counts_sum(cnt@, t as nat)
            &&& forall|t: int| 0 <= t < cnt@.len() ==> #[trigger] cnt@[t] <= max_run
            &&& max_run == 0 || exists|t: int| 0 <= t < cnt@.len() && #[trigger] cnt@[t] == max_run
            &&& max_run == max_count(cnt@, cnt@.len())
        },
{
    let mut off: Vec<usize> = Vec::new();
    let mut total: usize = 0;
    let mut max_run: usize = 0;
    off.push(0);
    let mut i: usize = 0;
    while i < cnt.len()
        invariant
            i <= cnt@.len(),
            off@.len() == i + 1,
            total == counts_sum(cnt@, i as nat),
            forall|t: int| 0 <= t <= i ==> #[trigger] off@[t] == counts_sum(cnt@, t as nat),
            max_run == max_count(cnt@, i as nat),
        decreases cnt@.len() - i,
    {
        let c: usize = cnt[i] as usize;
        match total.checked_add(c) {
            Some(sum) => {
                total = sum;
            },
            None => {
                proof {
                    lemma_counts_grow(cnt@, (i + 1) as nat, cnt@.len());
                }
                return None;
            },
        }
        off.push(total);
        if c > max_run {
            max_run = c;
        }
        i += 1;
    }
    proof {
        lemma_max_count(cnt@, cnt@.len());
    }
    Some((off, max_run))
}

/// Whether every index is below `limit`.
fn all_below(idx: &Vec<u32>, limit: usize) -> (r: bool)
    ensures
        r == forall|i: int| 0 <= i < idx@.len() ==> (#[trigger] idx@[i]) < limit,
{
    let mut k: usize = 0;
    while k < idx.len()
        invariant
            k <= idx@.len(),
            forall|i: int| 0 <= i < k ==> (#[trigger] idx@[i]) < limit,
        decreases idx@.len() - k,
    {
        if idx[k] as usize >= limit {
            return false;
        }
        k += 1;
    }
    true
}

/// `n` zeros.
fn zeros<S: Scalar>(n: usize) -> (r: Vec<S>)
    ensures
        r@ == Seq::new(n as nat, |i: int| S::spec_zero()),
{
    let mut out: Vec<S> = Vec::with_capacity(n);
    let mut i: usize = 0;
    while i < n
        invariant
            i <= n,
            out@.len() == i,
            forall|j: int| 0 <= j < i ==> #[trigger] out@[j] == S::spec_zero(),
        decreases n - i,
    {
        out.push(S::zero());
        i += 1;
    }
    assert(out@ =~= Seq::new(n as nat, |i: int| S::spec_zero()));
    out
}

} // verus!
