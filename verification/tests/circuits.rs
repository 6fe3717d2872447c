use pprop::batch::{
    evolve_single_gate_debug, propagate_batch, try_evolve_single_gate_debug, try_propagate_batch,
    PropagateError,
};
use pprop::evaluator::Evaluator;
use pprop::pauli_map::{insert_or_extend, insert_or_push, new_map, PauliMap};
use pprop::propagate::to_expectation;
use pprop::rules;
use pprop::scalar::{Arith, Scalar};

/// Machine numbers.
#[derive(Clone, Copy, Debug, PartialEq)]
struct F(f64);

impl Arith for F {
    fn spec_zero() -> F {
        F(0.0)
    }
    fn spec_one() -> F {
        F(1.0)
    }
    fn spec_empty_sum() -> F {
        F(std::iter::empty::<f64>().sum())
    }
    fn spec_inv_sqrt2() -> F {
        F(std::f64::consts::FRAC_1_SQRT_2)
    }
    fn spec_of_sign(sign: i8) -> F {
        F(sign as f64)
    }
    fn spec_negate(self) -> F {
        F(-self.0)
    }
    fn spec_plus(self, other: F) -> F {
        F(self.0 + other.0)
    }
    fn spec_minus(self, other: F) -> F {
        F(self.0 - other.0)
    }
    fn spec_times(self, other: F) -> F {
        F(self.0 * other.0)
    }
    fn spec_over(self, other: F) -> F {
        F(self.0 / other.0)
    }
    fn spec_is_nonnegative(self) -> bool {
        self.0 >= 0.0
    }
    fn spec_reaches(self, bound: F) -> bool {
        self.0.abs() >= bound.0
    }
    fn spec_falls_below(self, bound: F) -> bool {
        self.0.abs() < bound.0
    }
}

impl Scalar for F {
    fn zero() -> F {
        F::spec_zero()
    }
    fn one() -> F {
        F::spec_one()
    }
    fn empty_sum() -> F {
        F::spec_empty_sum()
    }
    fn inv_sqrt2() -> F {
        F::spec_inv_sqrt2()
    }
    fn of_sign(sign: i8) -> F {
        F::spec_of_sign(sign)
    }
    fn negate(self) -> F {
        self.spec_negate()
    }
    fn plus(self, other: F) -> F {
        self.spec_plus(other)
    }
    fn minus(self, other: F) -> F {
        self.spec_minus(other)
    }
    fn times(self, other: F) -> F {
        self.spec_times(other)
    }
    fn over(self, other: F) -> F {
        self.spec_over(other)
    }
    fn is_nonnegative(self) -> bool {
        self.spec_is_nonnegative()
    }
    fn reaches(self, bound: F) -> bool {
        self.spec_reaches(bound)
    }
    fn falls_below(self, bound: F) -> bool {
        self.spec_falls_below(bound)
    }
}

type Term = (f64, Vec<u32>, Vec<u32>);

/// A gate: kind, first wire, second wire, parameter.
type GateRow = (u8, u32, i64, i64);

fn plain(terms: Vec<(F, Vec<u32>, Vec<u32>)>) -> Vec<Term> {
    let mut out: Vec<Term> = terms.into_iter().map(|(c, s, cc)| (c.0, s, cc)).collect();
    out.sort_by(|a, b| (&a.1, &a.2).cmp(&(&b.1, &b.2)).then(a.0.partial_cmp(&b.0).unwrap()));
    out
}

/// The planes of a word given by its labels, qubit by qubit.
fn planes(labels: &[u8]) -> (Vec<u64>, Vec<u64>) {
    let words = (labels.len() + 63) / 64;
    let mut x = vec![0u64; words];
    let mut z = vec![0u64; words];
    for (q, l) in labels.iter().enumerate() {
        x[q / 64] |= ((l & 1) as u64) << (q % 64);
        z[q / 64] |= ((l >> 1) as u64) << (q % 64);
    }
    (x, z)
}

#[allow(clippy::too_many_arguments)]
fn run(
    num_qubits: u32,
    gates: &[GateRow],
    k1: i64,
    k2: i64,
    threshold: f64,
    dead: bool,
    xy: bool,
    sum: &[(Vec<u8>, f64)],
) -> Vec<Term> {
    let mut list = Vec::new();
    for (labels, c) in sum {
        let (x, z) = planes(labels);
        list.push((x, z, F(*c), vec![], vec![]));
    }
    let results = propagate_batch(
        num_qubits,
        gates.iter().map(|g| g.0).collect(),
        gates.iter().map(|g| g.1).collect(),
        gates.iter().map(|g| g.2).collect(),
        gates.iter().map(|g| g.3).collect(),
        k1,
        k2,
        F(threshold),
        dead,
        xy,
        vec![list],
    )
    .unwrap();
    assert_eq!(results.len(), 1);
    plain(results.into_iter().next().unwrap())
}

fn value_at(terms: &[Term], angles: &[f64]) -> f64 {
    let mut total = 0.0;
    for (c, s, cc) in terms {
        let mut product = *c;
        for i in s {
            product *= angles[*i as usize].sin();
        }
        for i in cc {
            product *= angles[*i as usize].cos();
        }
        total += product;
    }
    total
}

// State vectors, to hold the results against.

type C = (f64, f64);

fn mul(a: C, b: C) -> C {
    (a.0 * b.0 - a.1 * b.1, a.0 * b.1 + a.1 * b.0)
}

fn matrix(kind: u8, angle: f64) -> [C; 4] {
    let (s, c) = ((angle / 2.0).sin(), (angle / 2.0).cos());
    let h = std::f64::consts::FRAC_1_SQRT_2;
    match kind {
        rules::RX | rules::CRX => [(c, 0.0), (0.0, -s), (0.0, -s), (c, 0.0)],
        rules::RY | rules::CRY => [(c, 0.0), (-s, 0.0), (s, 0.0), (c, 0.0)],
        rules::RZ | rules::CRZ => [(c, -s), (0.0, 0.0), (0.0, 0.0), (c, s)],
        rules::H => [(h, 0.0), (h, 0.0), (h, 0.0), (-h, 0.0)],
        rules::S => [(1.0, 0.0), (0.0, 0.0), (0.0, 0.0), (0.0, 1.0)],
        rules::SX => [(0.5, 0.5), (0.5, -0.5), (0.5, -0.5), (0.5, 0.5)],
        rules::T => [(1.0, 0.0), (0.0, 0.0), (0.0, 0.0), (h, h)],
        rules::CNOT => [(0.0, 0.0), (1.0, 0.0), (1.0, 0.0), (0.0, 0.0)],
        rules::CY => [(0.0, 0.0), (0.0, -1.0), (0.0, 1.0), (0.0, 0.0)],
        _ => [(1.0, 0.0), (0.0, 0.0), (0.0, 0.0), (-1.0, 0.0)],
    }
}

fn apply(state: &mut Vec<C>, g: &GateRow, angles: &[f64]) {
    if g.0 == rules::SWAP {
        let (a, b) = (g.1 as usize, g.2 as usize);
        for i in 0..state.len() {
            if (i >> a) & 1 == 1 && (i >> b) & 1 == 0 {
                let j = i ^ (1 << a) ^ (1 << b);
                state.swap(i, j);
            }
        }
        return;
    }
    // A controlled rotation is given by its half angle.
    let angle = match g.0 {
        rules::RX | rules::RY | rules::RZ => angles[g.3 as usize],
        rules::CRX | rules::CRY | rules::CRZ => 2.0 * angles[g.3 as usize],
        _ => 0.0,
    };
    let m = matrix(g.0, angle);
    let controlled = g.0 > rules::SWAP;
    let (control, target) = if controlled { (g.1, g.2 as u32) } else { (0, g.1) };
    for i in 0..state.len() {
        if (i >> target) & 1 == 0 && (!controlled || (i >> control) & 1 == 1) {
            let j = i | (1 << target);
            let (a, b) = (state[i], state[j]);
            let (p, q) = (mul(m[0], a), mul(m[1], b));
            let (r, t) = (mul(m[2], a), mul(m[3], b));
            state[i] = (p.0 + q.0, p.1 + q.1);
            state[j] = (r.0 + t.0, r.1 + t.1);
        }
    }
}

fn simulate(n: usize, gates: &[GateRow], angles: &[f64], labels: &[u8]) -> f64 {
    let mut state: Vec<C> = vec![(0.0, 0.0); 1 << n];
    state[0] = (1.0, 0.0);
    for g in gates {
        apply(&mut state, g, angles);
    }
    let mut total = 0.0;
    for i in 0..state.len() {
        let mut j = i;
        let mut amp = state[i];
        for (q, l) in labels.iter().enumerate() {
            let set = (i >> q) & 1 == 1;
            match l {
                1 => j ^= 1 << q,
                2 => {
                    if set {
                        amp = (-amp.0, -amp.1);
                    }
                }
                3 => {
                    j ^= 1 << q;
                    amp = mul(amp, if set { (0.0, -1.0) } else { (0.0, 1.0) });
                }
                _ => {}
            }
        }
        total += state[j].0 * amp.0 + state[j].1 * amp.1;
    }
    total
}

fn next(seed: &mut u64, bound: u64) -> u64 {
    *seed = seed.wrapping_mul(6364136223846793005).wrapping_add(1442695040888963407);
    (*seed >> 33) % bound
}

fn random_circuit(seed: &mut u64, n: u64, len: usize) -> Vec<GateRow> {
    let mut gates = Vec::new();
    for i in 0..len {
        let kind = next(seed, 14) as u8;
        let a = next(seed, n);
        let b = (a + 1 + next(seed, n - 1)) % n;
        let second = if kind >= rules::SWAP { b as i64 } else { -1 };
        gates.push((kind, a as u32, second, i as i64));
    }
    gates
}

fn random_word(seed: &mut u64, n: u64) -> Vec<u8> {
    (0..n).map(|_| next(seed, 4) as u8).collect()
}

#[test]
fn random_circuits_agree_with_state_vectors() {
    let mut seed = 7;
    for _ in 0..200 {
        let gates = random_circuit(&mut seed, 3, 7);
        let word = random_word(&mut seed, 3);
        let angles: Vec<f64> = (0..7).map(|_| next(&mut seed, 6283) as f64 / 1000.0).collect();
        let expected = simulate(3, &gates, &angles, &word);
        let terms = run(3, &gates, -1, -1, -1.0, true, true, &[(word.clone(), 1.0)]);
        assert!((value_at(&terms, &angles) - expected).abs() < 1e-9);
    }
}

#[test]
fn every_kind_of_gate_agrees_with_state_vectors() {
    let angles = [0.3, 1.1, -0.7, 2.2];
    for kind in 0..14u8 {
        for code in 0..16u8 {
            let word = vec![code / 4, code % 4];
            let second = if kind >= rules::SWAP { 1 } else { -1 };
            let gates = [
                (rules::RY, 0, -1, 0),
                (rules::RX, 1, -1, 1),
                (rules::CNOT, 0, 1, -1),
                (kind, 0, second, 2),
                (rules::RZ, 1, -1, 3),
            ];
            let expected = simulate(2, &gates, &angles, &word);
            let terms = run(2, &gates, -1, -1, -1.0, false, false, &[(word.clone(), 1.0)]);
            assert!((value_at(&terms, &angles) - expected).abs() < 1e-12);
        }
    }
}

#[test]
fn an_evaluator_of_a_result_gives_the_expectation_value() {
    let mut seed = 31;
    let count = 6;
    for _ in 0..60 {
        let gates = random_circuit(&mut seed, 3, count);
        let word = random_word(&mut seed, 3);
        let angles: Vec<f64> = (0..count).map(|_| next(&mut seed, 6283) as f64 / 1000.0).collect();
        let terms = run(3, &gates, -1, -1, -1.0, true, true, &[(word.clone(), 1.0)]);
        let (mut coeffs, mut idx, mut cnt) = (vec![], vec![], vec![]);
        for (c, s, cc) in &terms {
            coeffs.push(F(*c));
            idx.extend(s.iter().copied());
            idx.extend(cc.iter().map(|k| count as u32 + 1 + k));
            idx.push(count as u32);
            cnt.push((s.len() + cc.len() + 1) as u32);
        }
        let evaluator = match Evaluator::new(coeffs, idx, cnt, count, F(1e-6)) {
            Ok(evaluator) => evaluator,
            Err(e) => panic!("{}", e.message()),
        };
        let sins = angles.iter().map(|a| F(a.sin())).collect();
        let coss = angles.iter().map(|a| F(a.cos())).collect();
        let value = match evaluator.eval(sins, coss) {
            Ok(value) => value.0,
            Err(e) => panic!("{}", e.message()),
        };
        assert!((value - simulate(3, &gates, &angles, &word)).abs() < 1e-9);
    }
}

#[test]
fn pruners_do_not_change_the_terms() {
    let mut seed = 99;
    for round in 0..120 {
        let gates = random_circuit(&mut seed, 4, 8);
        let sum: Vec<(Vec<u8>, f64)> =
            (0..3).map(|i| (random_word(&mut seed, 4), 1.0 + i as f64)).collect();
        let k1 = if round % 3 == 1 { 2 } else { -1 };
        let k2 = if round % 4 == 1 { 3 } else { -1 };
        let threshold = if round % 5 == 1 { 0.8 } else { -1.0 };
        let open = run(4, &gates, k1, k2, threshold, false, false, &sum);
        for (dead, xy) in [(true, false), (false, true), (true, true)] {
            assert_eq!(run(4, &gates, k1, k2, threshold, dead, xy, &sum), open);
        }
    }
}

#[test]
fn the_order_of_the_terms_given_does_not_matter() {
    let mut seed = 5;
    for _ in 0..40 {
        let gates = random_circuit(&mut seed, 3, 6);
        let mut sum: Vec<(Vec<u8>, f64)> =
            (0..4).map(|i| (random_word(&mut seed, 3), 1.0 + i as f64)).collect();
        let forwards = run(3, &gates, 2, 4, 0.5, true, true, &sum);
        sum.reverse();
        assert_eq!(run(3, &gates, 2, 4, 0.5, true, true, &sum), forwards);
    }
}

#[test]
fn a_rotation_of_z_leaves_the_cosine() {
    let terms = run(1, &[(rules::RX, 0, -1, 4)], -1, -1, -1.0, true, true, &[(vec![2], 0.5)]);
    assert_eq!(terms, vec![(0.5, vec![], vec![4])]);
}

#[test]
fn gates_act_last_to_first() {
    // Z under RY after H: the last gate of the circuit comes first.
    let gates = [(rules::H, 0, -1, -1), (rules::RY, 0, -1, 0)];
    let terms = run(1, &gates, -1, -1, -1.0, true, true, &[(vec![2], 1.0)]);
    assert_eq!(terms, vec![(-1.0, vec![0], vec![])]);
    let gates = [(rules::RY, 0, -1, 0), (rules::H, 0, -1, -1)];
    let terms = run(1, &gates, -1, -1, -1.0, true, true, &[(vec![2], 1.0)]);
    assert_eq!(terms, vec![(1.0, vec![0], vec![])]);
}

#[test]
fn words_that_stay_diagonal_without_gates() {
    let sum = [(vec![2, 0], 1.5), (vec![1, 0], 2.0), (vec![0, 0], -1.0), (vec![2, 0], 0.25)];
    let terms = run(2, &[], -1, -1, -1.0, true, true, &sum);
    assert_eq!(terms, vec![(-1.0, vec![], vec![]), (0.25, vec![], vec![]), (1.5, vec![], vec![])]);
}

#[test]
fn weight_truncation_drops_heavy_words() {
    let sum = [(vec![2, 2], 1.0), (vec![2, 0], 3.0)];
    let gates = [(rules::RZ, 0, -1, 0)];
    assert_eq!(run(2, &gates, 1, -1, -1.0, false, false, &sum), vec![(3.0, vec![], vec![])]);
    assert_eq!(run(2, &gates, 0, -1, -1.0, false, false, &sum), vec![]);
    assert_eq!(run(2, &gates, 2, -1, -1.0, false, false, &sum).len(), 2);
}

#[test]
fn a_gate_that_touches_nothing_truncates_nothing() {
    let sum = [(vec![2, 2, 0], 1.0)];
    let gates = [(rules::RX, 2, -1, 0)];
    assert_eq!(run(3, &gates, 0, 0, 5.0, true, true, &sum), vec![(1.0, vec![], vec![])]);
}

#[test]
fn frequency_truncation_drops_long_terms() {
    let gates = [(rules::RX, 0, -1, 0), (rules::RX, 0, -1, 1)];
    let all = run(1, &gates, -1, -1, -1.0, true, true, &[(vec![2], 1.0)]);
    assert_eq!(all, vec![(1.0, vec![], vec![1, 0]), (-1.0, vec![1, 0], vec![])]);
    assert_eq!(run(1, &gates, -1, 1, -1.0, true, true, &[(vec![2], 1.0)]), vec![]);
    assert_eq!(run(1, &gates, -1, 2, -1.0, true, true, &[(vec![2], 1.0)]), all);
}

#[test]
fn coefficient_truncation_drops_small_terms() {
    let sum = [(vec![2], 0.3), (vec![2], -0.6), (vec![2], 0.5)];
    let gates = [(rules::RX, 0, -1, 0)];
    let terms = run(1, &gates, -1, -1, 0.5, true, true, &sum);
    assert_eq!(terms, vec![(-0.6, vec![], vec![0]), (0.5, vec![], vec![0])]);
    let terms = run(1, &gates, -1, -1, 0.0, true, true, &sum);
    assert_eq!(terms.len(), 3);
}

#[test]
fn the_last_qubit_of_every_plane_size() {
    for n in [1u32, 64, 65, 128, 129, 257, 513, 1025, 2049, 4097, 8192] {
        let mut word = vec![0u8; n as usize];
        word[n as usize - 1] = 2;
        let gates = [(rules::RX, n - 1, -1, 0)];
        let terms = run(n, &gates, -1, -1, -1.0, true, true, &[(word, 2.0)]);
        assert_eq!(terms, vec![(2.0, vec![], vec![0])]);
    }
}

#[test]
fn too_many_qubits_are_refused() {
    let refused = propagate_batch::<F>(
        8193, vec![], vec![], vec![], vec![], -1, -1, F(-1.0), true, true, vec![],
    );
    assert_eq!(
        refused.err(),
        Some(PropagateError::TooManyQubits { num_qubits: 8193, words: 256 })
    );
    let refused = evolve_single_gate_debug::<F>(9000, 0, 0, -1, 0, vec![], vec![], vec![]);
    assert_eq!(
        refused.err(),
        Some(PropagateError::TooManyQubits { num_qubits: 9000, words: 256 })
    );
}

#[test]
fn a_batch_has_one_result_for_each_sum() {
    let results = propagate_batch(
        2,
        vec![rules::RX],
        vec![1],
        vec![-1],
        vec![0],
        -1,
        -1,
        F(-1.0),
        true,
        true,
        vec![
            vec![(vec![0], vec![2], F(1.0), vec![], vec![7])],
            vec![],
            vec![(vec![0], vec![1], F(2.0), vec![3], vec![])],
        ],
    )
    .unwrap();
    let results: Vec<Vec<Term>> = results.into_iter().map(plain).collect();
    assert_eq!(
        results,
        vec![
            vec![(1.0, vec![], vec![7, 0])],
            vec![],
            vec![(2.0, vec![3], vec![])],
        ]
    );
}

fn evolve(
    kind: u8,
    wire1: i64,
    labels: &[u8],
    terms: Vec<(F, Vec<u32>, Vec<u32>)>,
) -> Vec<(Vec<u64>, Vec<u64>, f64, Vec<u32>, Vec<u32>)> {
    let (x, z) = planes(labels);
    let out = evolve_single_gate_debug(2, kind, 0, wire1, 9, x, z, terms).unwrap();
    let mut out: Vec<(Vec<u64>, Vec<u64>, f64, Vec<u32>, Vec<u32>)> =
        out.into_iter().map(|(x, z, c, s, cc)| (x, z, c.0, s, cc)).collect();
    out.sort_by(|a, b| (&a.0, &a.1, &a.3, &a.4).cmp(&(&b.0, &b.1, &b.3, &b.4)));
    out
}

#[test]
fn one_gate_on_one_word() {
    let h = std::f64::consts::FRAC_1_SQRT_2;
    let one = || vec![(F(2.0), vec![1], vec![3])];
    // RX on Z: cosine on Z, sine on Y.
    assert_eq!(
        evolve(rules::RX, -1, &[2, 0], one()),
        vec![
            (vec![0], vec![1], 2.0, vec![1], vec![3, 9]),
            (vec![1], vec![1], 2.0, vec![1, 9], vec![3]),
        ]
    );
    // RX on X: nothing happens.
    assert_eq!(
        evolve(rules::RX, -1, &[1, 0], one()),
        vec![(vec![1], vec![0], 2.0, vec![1], vec![3])]
    );
    // RY on Z: the sine is negative.
    assert_eq!(
        evolve(rules::RY, -1, &[2, 0], one()),
        vec![
            (vec![0], vec![1], 2.0, vec![1], vec![3, 9]),
            (vec![1], vec![0], -2.0, vec![1, 9], vec![3]),
        ]
    );
    // H on Y turns it over.
    assert_eq!(
        evolve(rules::H, -1, &[3, 0], one()),
        vec![(vec![1], vec![1], -2.0, vec![1], vec![3])]
    );
    // T on X: X and -Y over the square root of two.
    assert_eq!(
        evolve(rules::T, -1, &[1, 0], one()),
        vec![
            (vec![1], vec![0], h * 2.0, vec![1], vec![3]),
            (vec![1], vec![1], -h * 2.0, vec![1], vec![3]),
        ]
    );
    // SWAP on XZ.
    assert_eq!(
        evolve(rules::SWAP, 1, &[1, 2], one()),
        vec![(vec![2], vec![1], 2.0, vec![1], vec![3])]
    );
    assert_eq!(
        evolve(rules::SWAP, 1, &[3, 3], one()),
        vec![(vec![3], vec![3], 2.0, vec![1], vec![3])]
    );
    // CNOT on XZ gives -YY.
    assert_eq!(
        evolve(rules::CNOT, 1, &[1, 2], one()),
        vec![(vec![3], vec![3], -2.0, vec![1], vec![3])]
    );
    // CRX on IY: four branches.
    assert_eq!(
        evolve(rules::CRX, 1, &[0, 3], one()),
        vec![
            (vec![0], vec![2], -2.0, vec![1, 9], vec![3, 9]),
            (vec![0], vec![3], 2.0, vec![1, 9], vec![3, 9]),
            (vec![2], vec![2], 2.0, vec![1], vec![3, 9, 9]),
            (vec![2], vec![3], 2.0, vec![1, 9, 9], vec![3]),
        ]
    );
}

#[test]
fn every_term_of_a_word_is_evolved() {
    let out = evolve(
        rules::S,
        -1,
        &[1, 0],
        vec![(F(1.0), vec![], vec![]), (F(-3.0), vec![2], vec![])],
    );
    assert_eq!(
        out,
        vec![
            (vec![1], vec![1], -1.0, vec![], vec![]),
            (vec![1], vec![1], 3.0, vec![2], vec![]),
        ]
    );
}

#[test]
fn terms_of_one_word_are_collected() {
    let mut map: PauliMap<F, 1> = new_map();
    insert_or_push(&mut map, ([0], [1]), (F(1.0), vec![], vec![]));
    insert_or_extend(
        &mut map,
        ([0], [1]),
        vec![(F(2.0), vec![5], vec![]), (F(3.0), vec![], vec![6])],
    );
    insert_or_push(&mut map, ([1], [0]), (F(4.0), vec![], vec![]));
    assert_eq!(map.len(), 2);
    assert_eq!(map[&([0], [1])].len(), 3);
    // Terms of one word stay in their order; the X word has no expectation value.
    let terms: Vec<Term> =
        to_expectation(&map).into_iter().map(|(c, s, cc)| (c.0, s, cc)).collect();
    assert_eq!(
        terms,
        vec![(1.0, vec![], vec![]), (2.0, vec![5], vec![]), (3.0, vec![], vec![6])]
    );
}

#[test]
fn the_diagonal_part_of_one_gate_is_a_run_through_it() {
    for kind in 0..14u8 {
        let wire1 = if kind >= rules::SWAP { 1 } else { -1 };
        for code in 0..16u8 {
            let word = vec![code / 4, code % 4];
            let mut diagonal: Vec<Term> = evolve(kind, wire1, &word, vec![(F(2.0), vec![], vec![])])
                .into_iter()
                .filter(|item| item.0 == vec![0])
                .map(|(_, _, c, s, cc)| (c, s, cc))
                .collect();
            diagonal.sort_by(|a, b| {
                (&a.1, &a.2).cmp(&(&b.1, &b.2)).then(a.0.partial_cmp(&b.0).unwrap())
            });
            let through = run(2, &[(kind, 0, wire1, 9)], -1, -1, -1.0, true, true, &[(word, 2.0)]);
            assert_eq!(diagonal, through);
        }
    }
}

#[test]
fn what_comes_out_is_within_the_bounds() {
    let mut seed = 31;
    for _ in 0..60 {
        let mut gates = random_circuit(&mut seed, 4, 8);
        // The last gate of the circuit acts first, and does so here.
        gates.push((rules::H, 0, -1, -1));
        let mut word = random_word(&mut seed, 4);
        word[0] = 1;
        let terms = run(4, &gates, 3, 2, 0.4, true, true, &[(word, 1.0)]);
        for (c, s, cc) in terms {
            assert!(s.len() + cc.len() <= 2);
            assert!(c.abs() >= 0.4);
        }
    }
}

/// The outcome of one gate on the word `labels` of two qubits.
fn outcome(kind: u8, wire0: u32, wire1: i64, labels: &[u8]) -> Result<usize, PropagateError> {
    let (x, z) = planes(labels);
    try_propagate_batch(
        2,
        vec![kind],
        vec![wire0],
        vec![wire1],
        vec![0],
        -1,
        -1,
        F(-1.0),
        true,
        true,
        vec![vec![(x, z, F(1.0), vec![], vec![])]],
    )
    .map(|results| results[0].len())
}

#[test]
fn circuits_that_cannot_run_are_refused() {
    let refused = Err(PropagateError::CannotRun);
    assert_eq!(outcome(rules::CNOT, 0, 1, &[2, 0]), Ok(1));
    // An unknown kind, or a missing second wire, matters only in action.
    assert_eq!(outcome(14, 0, -1, &[2, 0]), refused);
    assert_eq!(outcome(14, 1, -1, &[2, 0]), Ok(1));
    assert_eq!(outcome(rules::CZ, 0, -1, &[2, 0]), refused);
    assert_eq!(outcome(rules::CZ, 1, -1, &[2, 0]), Ok(1));
    // A wire beyond the planes always does.
    assert_eq!(outcome(rules::RX, 63, -1, &[2, 0]), Ok(1));
    assert_eq!(outcome(rules::RX, 64, -1, &[2, 0]), refused);
    assert_eq!(outcome(rules::S, 0, 64, &[2, 0]), refused);
    // A column without a row for a gate.
    let short = try_propagate_batch::<F>(
        2, vec![0], vec![], vec![-1], vec![0], -1, -1, F(-1.0), true, true, vec![],
    );
    assert_eq!(short.err(), Some(PropagateError::CannotRun));
    let many = try_propagate_batch::<F>(
        8193, vec![0], vec![], vec![], vec![], -1, -1, F(-1.0), true, true, vec![],
    );
    assert_eq!(
        many.err(),
        Some(PropagateError::TooManyQubits { num_qubits: 8193, words: 256 })
    );
}

#[test]
fn gates_that_cannot_act_are_refused() {
    let one = |n: u32, kind: u8, wire0: u32, wire1: i64| {
        let terms = vec![(F(1.0), vec![], vec![])];
        try_evolve_single_gate_debug(n, kind, wire0, wire1, 0, vec![0], vec![1], terms)
            .map(|out| out.len())
    };
    assert_eq!(one(2, rules::RX, 0, -1), Ok(2));
    assert_eq!(one(2, 14, 0, -1), Err(PropagateError::CannotRun));
    assert_eq!(one(2, rules::RX, 64, -1), Err(PropagateError::CannotRun));
    assert_eq!(one(2, rules::SWAP, 0, -1), Err(PropagateError::CannotRun));
    assert_eq!(one(2, rules::RX, 0, 64), Err(PropagateError::CannotRun));
    assert_eq!(
        one(9000, rules::RX, 0, -1),
        Err(PropagateError::TooManyQubits { num_qubits: 9000, words: 256 })
    );
}

#[test]
fn truncations_of_terms_filter_the_full_result() {
    let mut seed = 17;
    for round in 0..80 {
        let mut gates = random_circuit(&mut seed, 4, 8);
        gates.push((rules::H, 0, -1, -1));
        let mut word = random_word(&mut seed, 4);
        word[0] = 1;
        let sum = [(word, 1.0), (random_word(&mut seed, 4), 0.25)];
        let full = run(4, &gates, -1, -1, -1.0, true, true, &sum);
        let k2 = round % 5;
        let short: Vec<Term> = full
            .iter()
            .filter(|t| t.1.len() + t.2.len() <= k2 as usize)
            .cloned()
            .collect();
        assert_eq!(run(4, &gates, -1, k2, -1.0, true, false, &sum), short);
        let large: Vec<Term> = full.iter().filter(|t| t.0.abs() >= 0.5).cloned().collect();
        assert_eq!(run(4, &gates, -1, -1, 0.5, false, true, &sum), large);
    }
}

#[test]
fn gates_that_undo_themselves() {
    let kinds = [rules::H, rules::SWAP, rules::CNOT, rules::CY, rules::CZ];
    for kind in kinds {
        let wire1 = if kind == rules::H { -1 } else { 1 };
        for code in 0..16u8 {
            let (x, z) = planes(&[code / 4, code % 4]);
            let terms = || vec![(F(2.0), vec![1], vec![3]), (F(-0.5), vec![], vec![4])];
            let once =
                evolve_single_gate_debug(2, kind, 0, wire1, 0, x.clone(), z.clone(), terms())
                    .unwrap();
            assert_eq!(once.len(), 2);
            assert_eq!((&once[0].0, &once[0].1), (&once[1].0, &once[1].1));
            assert_eq!(once[0].2 .0.abs(), 2.0);
            let (kx, kz) = (once[0].0.clone(), once[0].1.clone());
            let t1 = once.into_iter().map(|(_, _, c, s, cc)| (c, s, cc)).collect();
            let twice = evolve_single_gate_debug(2, kind, 0, wire1, 0, kx, kz, t1).unwrap();
            let back: Vec<(Vec<u64>, Vec<u64>, F, Vec<u32>, Vec<u32>)> = terms()
                .into_iter()
                .map(|(c, s, cc)| (x.clone(), z.clone(), c, s, cc))
                .collect();
            assert_eq!(twice, back);
        }
    }
}

#[test]
fn gates_keep_the_norm() {
    let angles = [0.3, 1.1, -0.7, 2.2, 0.9, 0.4, 1.9, -1.3, 0.2, 0.8];
    for kind in 0..14u8 {
        let wire1 = if kind >= rules::SWAP { 1 } else { -1 };
        for code in 0..16u8 {
            let terms = vec![(F(2.0), vec![1], vec![3]), (F(-0.5), vec![], vec![4])];
            let plain: Vec<Term> =
                terms.iter().map(|(c, s, cc)| (c.0, s.clone(), cc.clone())).collect();
            let norm = value_at(&plain, &angles).powi(2);
            let mut words: Vec<((Vec<u64>, Vec<u64>), Vec<Term>)> = Vec::new();
            for (x, z, c, s, cc) in evolve(kind, wire1, &[code / 4, code % 4], terms) {
                match words.iter_mut().find(|w| w.0 == (x.clone(), z.clone())) {
                    Some(w) => w.1.push((c, s, cc)),
                    None => words.push(((x, z), vec![(c, s, cc)])),
                }
            }
            let total: f64 = words.iter().map(|w| value_at(&w.1, &angles).powi(2)).sum();
            assert!((total - norm).abs() < 1e-12);
        }
    }
}

#[test]
fn the_terms_of_two_sums_add() {
    let mut seed = 71;
    for _ in 0..40 {
        let gates = random_circuit(&mut seed, 3, 6);
        let a = (random_word(&mut seed, 3), 1.0);
        let b = (random_word(&mut seed, 3), 2.0);
        let mut apart = run(3, &gates, -1, -1, -1.0, true, true, &[a.clone()]);
        apart.extend(run(3, &gates, -1, -1, -1.0, true, true, &[b.clone()]));
        apart.sort_by(|p, q| (&p.1, &p.2).cmp(&(&q.1, &q.2)).then(p.0.partial_cmp(&q.0).unwrap()));
        assert_eq!(run(3, &gates, -1, -1, -1.0, true, true, &[a, b]), apart);
    }
}
