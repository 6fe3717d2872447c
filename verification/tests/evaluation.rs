use pprop::evaluator::{scatter, EvalError, Evaluator};
use pprop::residue::{Residue, MODULUS};
use pprop::scalar::{Arith, Scalar};

/// Machine numbers.
#[derive(Clone, Copy, Debug, PartialEq)]
struct F(f64);

impl Arith for F {
    fn spec_zero() -> F {
        F(0.0)
    }
    fn spec_one() -> F {
        F(1.0)
    }
    fn spec_empty_sum() -> F {
        F(std::iter::empty::<f64>().sum())
    }
    fn spec_inv_sqrt2() -> F {
        F(std::f64::consts::FRAC_1_SQRT_2)
    }
    fn spec_of_sign(sign: i8) -> F {
        F(sign as f64)
    }
    fn spec_negate(self) -> F {
        F(-self.0)
    }
    fn spec_plus(self, other: F) -> F {
        F(self.0 + other.0)
    }
    fn spec_minus(self, other: F) -> F {
        F(self.0 - other.0)
    }
    fn spec_times(self, other: F) -> F {
        F(self.0 * other.0)
    }
    fn spec_over(self, other: F) -> F {
        F(self.0 / other.0)
    }
    fn spec_is_nonnegative(self) -> bool {
        self.0 >= 0.0
    }
    fn spec_reaches(self, bound: F) -> bool {
        self.0.abs() >= bound.0
    }
    fn spec_falls_below(self, bound: F) -> bool {
        self.0.abs() < bound.0
    }
}

impl Scalar for F {
    fn zero() -> F {
        F::spec_zero()
    }
    fn one() -> F {
        F::spec_one()
    }
    fn empty_sum() -> F {
        F::spec_empty_sum()
    }
    fn inv_sqrt2() -> F {
        F::spec_inv_sqrt2()
    }
    fn of_sign(sign: i8) -> F {
        F::spec_of_sign(sign)
    }
    fn negate(self) -> F {
        self.spec_negate()
    }
    fn plus(self, other: F) -> F {
        self.spec_plus(other)
    }
    fn minus(self, other: F) -> F {
        self.spec_minus(other)
    }
    fn times(self, other: F) -> F {
        self.spec_times(other)
    }
    fn over(self, other: F) -> F {
        self.spec_over(other)
    }
    fn is_nonnegative(self) -> bool {
        self.spec_is_nonnegative()
    }
    fn reaches(self, bound: F) -> bool {
        self.spec_reaches(bound)
    }
    fn falls_below(self, bound: F) -> bool {
        self.spec_falls_below(bound)
    }
}

fn floats(values: &[f64]) -> Vec<F> {
    values.iter().map(|v| F(*v)).collect()
}

fn sines(angles: &[f64]) -> Vec<F> {
    angles.iter().map(|a| F(a.sin())).collect()
}

fn cosines(angles: &[f64]) -> Vec<F> {
    angles.iter().map(|a| F(a.cos())).collect()
}

fn residues(values: &[u32]) -> Vec<Residue> {
    values.iter().map(|v| Residue { value: *v }).collect()
}

/// `0.5 sin0 cos1 - 0.25 cos0^2 + 3 + 2 sin0 sin1 cos0 cos1 sin1`, on two parameters.
fn example(tol: f64) -> Evaluator<F> {
    Evaluator::new(
        floats(&[0.5, -0.25, 3.0, 2.0]),
        vec![0, 4, 3, 3, 2, 0, 1, 3, 4, 1],
        vec![2, 2, 1, 5],
        2,
        F(tol),
    )
    .unwrap()
}

fn example_value(a: f64, b: f64) -> f64 {
    0.5 * a.sin() * b.cos() - 0.25 * a.cos() * a.cos()
        + 3.0
        + 2.0 * a.sin() * b.sin() * a.cos() * b.cos() * b.sin()
}

#[test]
fn the_value_of_an_expression() {
    let e = example(1e-6);
    for (a, b) in [(0.3, 1.1), (-2.0, 0.7), (0.0, 1.0), (1.0, std::f64::consts::FRAC_PI_2)] {
        let v = e.eval(sines(&[a, b]), cosines(&[a, b])).unwrap();
        assert!((v.0 - example_value(a, b)).abs() < 1e-12);
    }
}

#[test]
fn the_order_of_the_operations() {
    // Five factors: the fifth goes into the first lane.
    let e = Evaluator::new(floats(&[0.1]), vec![0, 1, 2, 3, 4], vec![5], 2, F(1e-6)).unwrap();
    let (s0, s1, c0, c1) = (0.7, 1.3, 0.9, 1.7);
    let v = e.eval(floats(&[s0, s1]), floats(&[c0, c1])).unwrap();
    let empty: f64 = std::iter::empty::<f64>().sum();
    let product = (((1.0 * s0) * c1) * (1.0 * s1)) * ((1.0 * 1.0) * (1.0 * c0));
    assert_eq!(v.0, empty + 0.1 * product);
}

#[test]
fn the_gradient_is_the_slope_of_the_value() {
    let e = example(1e-6);
    let step = 1e-6;
    for (a, b) in [(0.3, 1.1), (-2.0, 0.7), (0.0, 1.0), (1.0, std::f64::consts::FRAC_PI_2)] {
        let (v, grad) = e.eval_and_grad(sines(&[a, b]), cosines(&[a, b]), 2, false).unwrap();
        assert!((v.0 - example_value(a, b)).abs() < 1e-12);
        let da = (example_value(a + step, b) - example_value(a - step, b)) / (2.0 * step);
        let db = (example_value(a, b + step) - example_value(a, b - step)) / (2.0 * step);
        assert!((grad[0].0 - da).abs() < 1e-6);
        assert!((grad[1].0 - db).abs() < 1e-6);
    }
}

#[test]
fn the_gradient_where_a_sine_is_zero() {
    // 0.5 sin0 cos1 at sin0 = 0: the slope in angle 0 is 0.5 cos0 cos1.
    let e = Evaluator::new(floats(&[0.5]), vec![0, 4], vec![2], 2, F(1e-6)).unwrap();
    let (v, grad) = e
        .eval_and_grad(floats(&[0.0, 0.6]), floats(&[1.0, 0.8]), 2, false)
        .unwrap();
    assert_eq!(v.0, 0.0);
    assert_eq!(grad, floats(&[0.5 * 1.0 * 0.8, 0.0]));
}

#[test]
fn a_repeated_factor_is_a_power() {
    // cos0^2 has the slope -2 sin0 cos0.
    let e = Evaluator::new(floats(&[1.0]), vec![2, 2], vec![2], 1, F(1e-6)).unwrap();
    let (s, c) = (0.6, 0.8);
    let (v, grad) = e.eval_and_grad(floats(&[s]), floats(&[c]), 1, false).unwrap();
    assert!((v.0 - c * c).abs() < 1e-15);
    assert!((grad[0].0 + 2.0 * s * c).abs() < 1e-15);
    let exact = Evaluator::new(floats(&[1.0]), vec![2, 2], vec![2], 1, F(10.0)).unwrap();
    let (v, grad) = exact.eval_and_grad(floats(&[s]), floats(&[c]), 1, false).unwrap();
    assert_eq!(v.0, c * c);
    assert!((grad[0].0 + 2.0 * s * c).abs() < 1e-15);
}

#[test]
fn an_expression_without_terms() {
    let e: Evaluator<F> = Evaluator::new(vec![], vec![], vec![], 2, F(1e-6)).unwrap();
    assert_eq!(e.eval(floats(&[0.5, 0.5]), floats(&[0.5, 0.5])).unwrap().0, 0.0);
    let (v, grad) =
        e.eval_and_grad(floats(&[0.5, 0.5]), floats(&[0.5, 0.5]), 2, false).unwrap();
    assert_eq!(v.0, 0.0);
    assert_eq!(grad, floats(&[0.0, 0.0]));
}

#[test]
fn an_expression_without_parameters() {
    let e = Evaluator::new(floats(&[1.5, 2.5]), vec![0], vec![1, 0], 0, F(1e-6)).unwrap();
    assert_eq!(e.eval(vec![], vec![]).unwrap().0, 4.0);
    let (v, grad) = e.eval_and_grad(vec![], vec![], 0, false).unwrap();
    assert_eq!(v.0, 4.0);
    assert!(grad.is_empty());
}

#[test]
fn what_is_refused() {
    let bad = Evaluator::new(floats(&[1.0]), vec![0], vec![1, 0], 1, F(0.1));
    assert_eq!(bad.err(), Some(EvalError::LengthMismatch));
    let bad = Evaluator::new(floats(&[1.0]), vec![0], vec![2], 1, F(0.1));
    assert_eq!(bad.err(), Some(EvalError::CountMismatch));
    let bad = Evaluator::new(floats(&[1.0]), vec![3], vec![1], 1, F(0.1));
    assert_eq!(bad.err(), Some(EvalError::FactorOutOfRange));
    let e = example(0.1);
    assert_eq!(e.eval(floats(&[0.0]), floats(&[0.0, 0.0])).err(), Some(EvalError::AngleCount));
    assert_eq!(e.eval(floats(&[0.0, 0.0]), floats(&[0.0])).err(), Some(EvalError::AngleCount));
    assert_eq!(e.read_angles(floats(&[0.0])).err(), Some(EvalError::AngleCount));
    assert_eq!(e.read_angles(floats(&[0.0, 1.0])), Ok(floats(&[0.0, 1.0])));
    let two = || floats(&[0.5, 0.5]);
    assert_eq!(e.eval_and_grad(two(), two(), 3, false).err(), Some(EvalError::OutputShape));
    assert_eq!(e.eval_and_grad(two(), two(), 2, true).err(), Some(EvalError::OutputShape));
    assert_eq!(
        e.eval_and_grad(floats(&[0.5]), two(), 3, true).err(),
        Some(EvalError::AngleCount)
    );
}

#[test]
fn what_is_said_of_errors() {
    assert_eq!(EvalError::LengthMismatch.message(), "coeffs and cnt must have equal length");
    assert_eq!(EvalError::CountMismatch.message(), "cnt does not add up to len(idx)");
    assert_eq!(EvalError::FactorOutOfRange.message(), "factor index out of range");
    assert_eq!(EvalError::AngleCount.message(), "sins/coss must have length num_params");
    assert_eq!(
        EvalError::OutputShape.message(),
        "out must be a writable float64 array of length num_params"
    );
}

#[test]
fn factors_are_spread_over_copies() {
    let zeros = || floats(&[0.0; 12]);
    let run = [0u32, 2, 2, 1, 0, 2];
    let mut one = floats(&[0.0; 3]);
    scatter::<F, 1>(&run, F(1.0), &mut one, 3);
    assert_eq!(one, floats(&[2.0, 1.0, 3.0]));
    let mut four = zeros();
    scatter::<F, 4>(&run, F(1.0), &mut four, 3);
    assert_eq!(
        four,
        floats(&[2.0, 0.0, 1.0, 0.0, 0.0, 1.0, 0.0, 0.0, 1.0, 0.0, 1.0, 0.0])
    );
    let mut two = floats(&[0.0; 6]);
    scatter::<F, 2>(&run, F(0.5), &mut two, 3);
    assert_eq!(two, floats(&[1.0, 0.0, 0.5, 0.0, 0.5, 1.0]));
}

#[test]
fn residues_compute_modulo_a_prime() {
    let a = Residue { value: 5000 };
    let b = Residue { value: 6000 };
    assert_eq!(a.plus(b).value, 11000 % MODULUS);
    assert_eq!(a.minus(b).value, MODULUS - 1000);
    assert_eq!(a.times(b).value, (5000u64 * 6000 % MODULUS as u64) as u32);
    assert_eq!(a.over(b).times(b), a);
    assert_eq!(a.negate().plus(a), Residue::zero());
    let h = Residue::inv_sqrt2();
    assert_eq!(h.times(h).plus(h.times(h)), Residue::one());
    assert_eq!(Residue::of_sign(-1), Residue::one().negate());
    assert!(Residue { value: 4095 }.is_nonnegative());
    assert!(!Residue { value: 4096 }.is_nonnegative());
    assert!(Residue::of_sign(-3).reaches(Residue { value: 3 }));
    assert!(Residue::of_sign(-3).falls_below(Residue { value: 4 }));
}

/// An expression over residues with many factors, on `p` parameters.
fn residue_example(p: usize, tol: u32) -> Evaluator<Residue> {
    let width = 2 * p as u32 + 1;
    let mut coeffs = Vec::new();
    let mut idx = Vec::new();
    let mut cnt = Vec::new();
    let mut seed: u32 = 12345;
    for t in 0..25u32 {
        coeffs.push(Residue { value: 1 + 37 * t });
        cnt.push(t % 11);
        for _ in 0..t % 11 {
            seed = seed.wrapping_mul(1664525).wrapping_add(1013904223);
            idx.push((seed >> 8) % width);
        }
    }
    Evaluator::new(coeffs, idx, cnt, p, Residue { value: tol }).unwrap()
}

#[test]
fn both_ways_to_the_gradient_agree() {
    // Few parameters take four copies of the accumulator, more take two or one.
    for p in [1usize, 3, 7, 255, 256, 511, 512] {
        let sins: Vec<u32> = (0..p as u32).map(|k| 1 + (k * 97 + 5) % (MODULUS - 1)).collect();
        let coss: Vec<u32> = (0..p as u32).map(|k| 1 + (k * 41 + 11) % (MODULUS - 1)).collect();
        // Nothing is below a tolerance of zero, everything below one of 4096.
        let fast = residue_example(p, 0)
            .eval_and_grad(residues(&sins), residues(&coss), p, false)
            .unwrap();
        let exact = residue_example(p, 4096)
            .eval_and_grad(residues(&sins), residues(&coss), p, false)
            .unwrap();
        let value = residue_example(p, 0).eval(residues(&sins), residues(&coss)).unwrap();
        assert_eq!(fast, exact);
        assert_eq!(fast.0, value);
    }
}

#[test]
fn a_gradient_does_not_depend_on_what_was_there() {
    let e = residue_example(7, 0);
    let sins = residues(&[1, 2, 3, 4, 5, 6, 7]);
    let coss = residues(&[11, 12, 13, 14, 15, 16, 17]);
    let mut fresh = residues(&[0; 7]);
    let mut used = residues(&[99; 7]);
    let v1 = e.grad_exact(&sins, &coss, &mut fresh);
    let v2 = e.grad_fast(&sins, &coss, &mut used);
    assert_eq!(v1, v2);
    assert_eq!(fresh, used);
    // By partial products the gradient is added to what was there.
    let mut more = residues(&[1; 7]);
    e.grad_exact(&sins, &coss, &mut more);
    for k in 0..7 {
        assert_eq!(more[k], fresh[k].plus(Residue::one()));
    }
}
