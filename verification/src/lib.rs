//! Heisenberg propagation of Pauli sums through parametrised quantum circuits.
//!
//! A circuit is run backwards on an observable, a sum of Pauli words whose
//! coefficients are sums of trigonometric terms in the angles. What is left of it on
//! the all-zero state is an expression that `evaluator` evaluates, with its gradient.
//!
//! * `bits`: Pauli words as packed planes of bits.
//! * `rules`: how each gate acts on Pauli labels, and `pauli_group`: why that is right.
//! * `involution`, `norm`: gates that undo themselves, and that gates keep the norm.
//! * `conjugation`, `unitary`, `gate_forms`: the gates in the algebra of Pauli words, and
//!   `observable`: that a result is the expectation value of the conjugated observable.
//! * `model`: what propagation computes, on sequences.
//! * `pauli_map`, `evolve`, `propagate`, `batch`: the same on hash maps.
//! * `reorder`, `grouping`: that the order of the entries is of no account.
//! * `pruning`: that the pruners lose nothing, and `truncation`: what truncations leave.
//! * `evaluator`, and `calculus`, `exactness`: what its formulas come to in exact
//!   arithmetic.
//! * `readout`: that an evaluator of a result computes that expectation value.
//! * `gate_terms`, `run_laws`, `planes`, `columns`: what gates, runs and batches do, written
//!   out in numbers, and `expressions`, `slope`: the same of evaluators.
//! * `scalar`: the numbers, and `residue`: numbers without rounding.

pub mod batch;
pub mod bits;
pub mod calculus;
pub mod columns;
pub mod conjugation;
pub mod evaluator;
pub mod evolve;
pub mod exactness;
pub mod expressions;
pub mod gate_forms;
pub mod gate_terms;
pub mod grouping;
pub mod involution;
pub mod model;
pub mod norm;
pub mod observable;
pub mod pauli_group;
pub mod pauli_map;
pub mod planes;
pub mod propagate;
pub mod pruning;
pub mod readout;
pub mod reorder;
pub mod residue;
pub mod rules;
pub mod run_laws;
pub mod scalar;
pub mod slope;
pub mod truncation;
pub mod unitary;
