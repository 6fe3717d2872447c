//! What propagation computes, stated on sequences of labels and terms.
//!
//! A Pauli sum is a sequence of entries, each a word with one trigonometric term
//! of its coefficient. How the entries are grouped or ordered is of no account:
//! the executable functions agree with the model up to the order of the entries.

use vstd::prelude::*;

use crate::bits::{all_clear, either, meets, weight, within, xy_support, xy_weight};
use crate::rules;
use crate::rules::CRBranch;
use crate::scalar::Arith;

verus! {

/// One trigonometric product term: `(coeff, sin_idx, cos_idx)` stands for `coeff`
/// times the sines of the angles in `sin_idx` times the cosines of the angles in
/// `cos_idx`. A repeated index is a power.
pub type CoeffTerm<S> = (S, Vec<u32>, Vec<u32>);

/// A term, with its index lists as sequences.
#[verifier::ext_equal]
pub struct Term<S> {
    pub coeff: S,
    pub sin_idx: Seq<u32>,
    pub cos_idx: Seq<u32>,
}

/// One term of the coefficient of one word.
#[verifier::ext_equal]
pub struct Entry<S> {
    pub word: Seq<u8>,
    pub term: Term<S>,
}

/// The model of a term.
pub open spec fn term_of<S>(t: CoeffTerm<S>) -> Term<S> {
    Term { coeff: t.0, sin_idx: t.1@, cos_idx: t.2@ }
}

/// The model of a list of terms.
pub open spec fn terms_of<S>(ts: Seq<CoeffTerm<S>>) -> Seq<Term<S>> {
    Seq::new(ts.len(), |i: int| term_of(ts[i]))
}

/// The entries of one word with a list of terms.
pub open spec fn entries_of<S>(w: Seq<u8>, ts: Seq<Term<S>>) -> Seq<Entry<S>> {
    Seq::new(ts.len(), |i: int| Entry { word: w, term: ts[i] })
}

// ---------------------------------------------------------------------
// Gates
// ---------------------------------------------------------------------

/// A gate: its kind, its wires and its parameter. `wire1` is negative unless the
/// gate has a second wire, `param` unless it is parametrised.
pub struct Gate {
    pub kind: u8,
    pub wire0: u32,
    pub wire1: i64,
    pub param: i64,
}

/// What a branch multiplies a coefficient by.
pub enum Factor {
    /// The coefficient stays.
    One,
    /// It is negated.
    Minus,
    /// It is multiplied by a sign.
    Sign(i8),
    /// It is divided by the square root of two, and negated or not.
    Phase(bool),
}

/// One branch of a gate's action on a word: the word it goes over into, and what
/// happens to each of its terms.
pub struct Branch {
    pub word: Seq<u8>,
    pub factor: Factor,
    pub n_sin: nat,
    pub n_cos: nat,
}

/// A coefficient multiplied by a factor.
pub open spec fn scaled<S: Arith>(factor: Factor, c: S) -> S {
    match factor {
        Factor::One => c,
        Factor::Minus => c.spec_negate(),
        Factor::Sign(sign) => S::spec_of_sign(sign).spec_times(c),
        Factor::Phase(negative) => phase::<S>(negative).spec_times(c),
    }
}

/// Plus or minus one over the square root of two.
pub open spec fn phase<S: Arith>(negative: bool) -> S {
    if negative {
        S::spec_inv_sqrt2().spec_negate()
    } else {
        S::spec_inv_sqrt2()
    }
}

/// `n` copies of the index `p`.
pub open spec fn copies(p: u32, n: nat) -> Seq<u32> {
    Seq::new(n, |i: int| p)
}

/// The term `t` with its coefficient multiplied by a factor, and with `n_sin` sines
/// and `n_cos` cosines of the angle `p` more.
pub open spec fn grown<S: Arith>(
    factor: Factor,
    n_sin: nat,
    n_cos: nat,
    p: u32,
    t: Term<S>,
) -> Term<S> {
    Term {
        coeff: scaled(factor, t.coeff),
        sin_idx: t.sin_idx + copies(p, n_sin),
        cos_idx: t.cos_idx + copies(p, n_cos),
    }
}

/// The term that a branch makes of the term `t`.
pub open spec fn branch_term<S: Arith>(b: Branch, p: u32, t: Term<S>) -> Term<S> {
    grown(b.factor, b.n_sin, b.n_cos, p, t)
}

/// The terms that a branch makes of a list of terms.
pub open spec fn branch_terms<S: Arith>(b: Branch, p: u32, ts: Seq<Term<S>>) -> Seq<Term<S>> {
    Seq::new(ts.len(), |i: int| branch_term(b, p, ts[i]))
}

/// The word `w` with the label `l` on `wire`.
pub open spec fn put(w: Seq<u8>, wire: u32, l: u8) -> Seq<u8> {
    w.update(wire as int, l % 4)
}

/// A word that goes on as it is.
pub open spec fn unchanged(w: Seq<u8>) -> Seq<Branch> {
    seq![Branch { word: w, factor: Factor::One, n_sin: 0, n_cos: 0 }]
}

/// A rotation: a commuting word passes; any other splits into a cosine branch on
/// the same word and a signed sine branch on the turned one.
pub open spec fn rotation_branches(w: Seq<u8>, wire: u32, out: Option<(u8, i8)>) -> Seq<Branch> {
    match out {
        None => unchanged(w),
        Some((l, sign)) => seq![
            Branch { word: w, factor: Factor::One, n_sin: 0, n_cos: 1 },
            Branch { word: put(w, wire, l), factor: Factor::Sign(sign), n_sin: 1, n_cos: 0 },
        ],
    }
}

/// The factor of a constant sign.
pub open spec fn sign_factor(sign: i8) -> Factor {
    if sign == 1 {
        Factor::One
    } else {
        Factor::Minus
    }
}

/// A single-qubit Clifford gate: one word, with a sign.
pub open spec fn clifford_branches(w: Seq<u8>, wire: u32, out: Option<(u8, i8)>) -> Seq<Branch> {
    match out {
        None => unchanged(w),
        Some((l, sign)) => seq![
            Branch { word: put(w, wire, l), factor: sign_factor(sign), n_sin: 0, n_cos: 0 },
        ],
    }
}

/// The T gate: two words with constant phases.
pub open spec fn t_branches(
    w: Seq<u8>,
    wire: u32,
    out: Option<((u8, bool), (u8, bool))>,
) -> Seq<Branch> {
    match out {
        None => unchanged(w),
        Some(((l1, neg1), (l2, neg2))) => seq![
            Branch { word: put(w, wire, l1), factor: Factor::Phase(neg1), n_sin: 0, n_cos: 0 },
            Branch { word: put(w, wire, l2), factor: Factor::Phase(neg2), n_sin: 0, n_cos: 0 },
        ],
    }
}

/// SWAP: the labels on the two wires change places.
pub open spec fn swap_branches(w: Seq<u8>, w0: u32, w1: u32) -> Seq<Branch> {
    unchanged(w.update(w0 as int, w[w1 as int]).update(w1 as int, w[w0 as int]))
}

/// A controlled gate: one word, with a sign.
pub open spec fn controlled_branches(
    w: Seq<u8>,
    control: u32,
    target: u32,
    out: Option<(u8, u8, i8)>,
) -> Seq<Branch> {
    match out {
        None => unchanged(w),
        Some((c, t, sign)) => seq![
            Branch {
                word: put(put(w, control, c), target, t),
                factor: sign_factor(sign),
                n_sin: 0,
                n_cos: 0,
            },
        ],
    }
}

/// A controlled rotation: up to four words, each with a sign and with sines and
/// cosines of the half angle.
pub open spec fn controlled_rotation_branches(
    w: Seq<u8>,
    control: u32,
    target: u32,
    out: Option<Seq<CRBranch>>,
) -> Seq<Branch> {
    match out {
        None => unchanged(w),
        Some(bs) => Seq::new(bs.len(), |i: int| controlled_rotation_branch(w, control, target, bs[i])),
    }
}

/// One branch of a controlled rotation.
pub open spec fn controlled_rotation_branch(
    w: Seq<u8>,
    control: u32,
    target: u32,
    b: CRBranch,
) -> Branch {
    Branch {
        word: put(put(w, control, b.0), target, b.1),
        factor: Factor::Sign(b.2),
        n_sin: b.3 as nat,
        n_cos: b.4 as nat,
    }
}

/// The second wire of a gate.
pub open spec fn second_wire(g: Gate) -> u32 {
    g.wire1 as u32
}

/// The parameter index of a gate.
pub open spec fn param_index(g: Gate) -> u32 {
    g.param as u32
}

/// The code of a pair of labels.
pub open spec fn pair_code(w: Seq<u8>, control: u32, target: u32) -> u8 {
    (4 * w[control as int] + w[target as int]) as u8
}

/// What a gate makes of a word.
pub open spec fn branches(g: Gate, w: Seq<u8>) -> Seq<Branch> {
    let l = w[g.wire0 as int];
    let second = second_wire(g);
    let code = pair_code(w, g.wire0, second);
    match g.kind {
        rules::RX => rotation_branches(w, g.wire0, rules::turned(rules::AXIS_X, l)),
        rules::RY => rotation_branches(w, g.wire0, rules::turned(rules::AXIS_Y, l)),
        rules::RZ => rotation_branches(w, g.wire0, rules::turned(rules::AXIS_Z, l)),
        rules::H => clifford_branches(w, g.wire0, rules::hadamard(l)),
        rules::S => clifford_branches(w, g.wire0, rules::turned(rules::AXIS_Z, l)),
        rules::SX => clifford_branches(w, g.wire0, rules::turned(rules::AXIS_X, l)),
        rules::T => t_branches(w, g.wire0, rules::eighth_turned(l)),
        rules::SWAP => swap_branches(w, g.wire0, second),
        rules::CNOT => controlled_branches(
            w,
            g.wire0,
            second,
            rules::controlled_code(rules::AXIS_X, code),
        ),
        rules::CY => controlled_branches(
            w,
            g.wire0,
            second,
            rules::controlled_code(rules::AXIS_Y, code),
        ),
        rules::CZ => controlled_branches(
            w,
            g.wire0,
            second,
            rules::controlled_code(rules::AXIS_Z, code),
        ),
        rules::CRX => controlled_rotation_branches(
            w,
            g.wire0,
            second,
            rules::controlled_turned_code(rules::AXIS_X, code),
        ),
        rules::CRY => controlled_rotation_branches(
            w,
            g.wire0,
            second,
            rules::controlled_turned_code(rules::AXIS_Y, code),
        ),
        _ => controlled_rotation_branches(
            w,
            g.wire0,
            second,
            rules::controlled_turned_code(rules::AXIS_Z, code),
        ),
    }
}

/// Whether a kind of gate acts on a second wire.
pub open spec fn is_two_qubit(kind: u8) -> bool {
    rules::SWAP <= kind <= rules::CRZ
}

/// Whether the wires that a gate names are among `n` qubits.
pub open spec fn wires_fit(g: Gate, n: int) -> bool {
    &&& g.wire0 < n
    &&& g.wire1 >= 0 ==> second_wire(g) < n
}

/// Whether a gate can act on words of `n` qubits: its kind is known, and the wires
/// that the kind needs are among them.
pub open spec fn can_act(g: Gate, n: int) -> bool {
    &&& g.kind <= rules::CRZ
    &&& g.wire0 < n
    &&& is_two_qubit(g.kind) ==> second_wire(g) < n
}

/// Whether `q` is one of the wires that a gate names.
pub open spec fn names_wire(g: Gate, q: int) -> bool {
    q == g.wire0 || (g.wire1 >= 0 && q == second_wire(g))
}

/// The wires that a gate names, among `n` qubits.
pub open spec fn gate_mask(g: Gate, n: nat) -> Seq<bool> {
    Seq::new(n, |q: int| names_wire(g, q))
}

/// The entries that a gate makes of one entry.
pub open spec fn images<S: Arith>(g: Gate, e: Entry<S>) -> Seq<Entry<S>> {
    Seq::new(
        branches(g, e.word).len(),
        |i: int|
            Entry {
                word: branches(g, e.word)[i].word,
                term: branch_term(branches(g, e.word)[i], param_index(g), e.term),
            },
    )
}

/// The sum that a gate makes of a sum.
pub open spec fn evolved<S: Arith>(g: Gate, s: Seq<Entry<S>>) -> Seq<Entry<S>> {
    s.flat_map(|e: Entry<S>| images(g, e))
}

// ---------------------------------------------------------------------
// Propagation
// ---------------------------------------------------------------------

/// The truncations and pruners of a run. A negative bound disables the weight or
/// the frequency truncation, a threshold below zero the one on coefficients.
pub struct Settings<S> {
    pub k1: i64,
    pub k2: i64,
    pub coeff_threshold: S,
    pub use_dead_qubit_pruner: bool,
    pub use_xy_weight_pruner: bool,
}

/// Whether a gate names a wire on which some word of the sum is not the identity.
pub open spec fn touches<S>(g: Gate, s: Seq<Entry<S>>) -> bool {
    exists|i: int| 0 <= i < s.len() && #[trigger] touches_word(g, s[i].word)
}

/// Whether a gate names a wire on which a word is not the identity.
pub open spec fn touches_word(g: Gate, w: Seq<u8>) -> bool {
    exists|q: int| 0 <= q < w.len() && names_wire(g, q) && #[trigger] w[q] != 0
}

/// The wires that the gates from `i` on name, among `n` qubits.
pub open spec fn named_from(gates: Seq<Gate>, i: int, n: nat) -> Seq<bool> {
    Seq::new(n, |q: int| exists|j: int| i <= j < gates.len() && names_wire(#[trigger] gates[j], q))
}

/// Whether a word is X or Y only on qubits that the gates from `i` on name.
pub open spec fn is_alive(gates: Seq<Gate>, i: int, w: Seq<u8>) -> bool {
    within(xy_support(w), named_from(gates, i, w.len()))
}

/// How many of the gates from `i` on lie in the causal cone of `cone`: those that
/// meet it, where each one that does adds its wires to it.
pub open spec fn cone_budget(gates: Seq<Gate>, i: int, cone: Seq<bool>) -> nat
    decreases gates.len() - i,
{
    if i < 0 || i >= gates.len() {
        0
    } else {
        let mask = gate_mask(gates[i], cone.len());
        if meets(mask, cone) {
            1 + cone_budget(gates, i + 1, either(cone, mask))
        } else {
            cone_budget(gates, i + 1, cone)
        }
    }
}

/// Whether the gates in the causal cone of a word are enough to bring its
/// XY-weight to zero, one for each gate.
pub open spec fn is_reducible(gates: Seq<Gate>, i: int, w: Seq<u8>) -> bool {
    xy_weight(w) <= cone_budget(gates, i, xy_support(w))
}

/// Whether the pruners in use keep a word before gate `i`.
pub open spec fn survives_pruning<S>(
    st: Settings<S>,
    gates: Seq<Gate>,
    i: int,
    w: Seq<u8>,
) -> bool {
    &&& st.use_dead_qubit_pruner ==> is_alive(gates, i, w)
    &&& st.use_xy_weight_pruner ==> is_reducible(gates, i, w)
}

/// Whether the weight truncation keeps a word.
pub open spec fn weight_kept(k1: i64, w: Seq<u8>) -> bool {
    k1 >= 0 ==> weight(w) <= k1 as u32
}

/// Whether the frequency truncation keeps a term.
pub open spec fn frequency_kept<S>(k2: i64, t: Term<S>) -> bool {
    k2 >= 0 ==> t.sin_idx.len() + t.cos_idx.len() <= k2 as usize
}

/// Whether the coefficient truncation keeps a term.
pub open spec fn coefficient_kept<S: Arith>(threshold: S, t: Term<S>) -> bool {
    threshold.spec_is_nonnegative() ==> t.coeff.spec_reaches(threshold)
}

/// Whether the truncations in use keep an entry.
pub open spec fn survives_truncation<S: Arith>(st: Settings<S>, e: Entry<S>) -> bool {
    &&& weight_kept(st.k1, e.word)
    &&& frequency_kept(st.k2, e.term)
    &&& coefficient_kept(st.coeff_threshold, e.term)
}

/// The words of a sum that the pruners in use keep before gate `i`.
pub open spec fn pruned<S>(
    st: Settings<S>,
    gates: Seq<Gate>,
    i: int,
    s: Seq<Entry<S>>,
) -> Seq<Entry<S>> {
    s.filter(|e: Entry<S>| survives_pruning(st, gates, i, e.word))
}

/// The entries of a sum that the truncations in use keep.
pub open spec fn truncated<S: Arith>(st: Settings<S>, s: Seq<Entry<S>>) -> Seq<Entry<S>> {
    s.filter(|e: Entry<S>| survives_truncation(st, e))
}

/// One step of a run. Where gate `i` touches no word, the sum stays as it is;
/// elsewhere its words are pruned, acted on and truncated, in this order.
pub open spec fn stepped<S: Arith>(
    st: Settings<S>,
    gates: Seq<Gate>,
    i: int,
    s: Seq<Entry<S>>,
) -> Seq<Entry<S>> {
    if touches(gates[i], s) {
        truncated(st, evolved(gates[i], pruned(st, gates, i, s)))
    } else {
        s
    }
}

/// A run through the gates from `i` on.
pub open spec fn propagated<S: Arith>(
    st: Settings<S>,
    gates: Seq<Gate>,
    i: int,
    s: Seq<Entry<S>>,
) -> Seq<Entry<S>>
    decreases gates.len() - i,
{
    if i < 0 || i >= gates.len() {
        s
    } else {
        propagated(st, gates, i + 1, stepped(st, gates, i, s))
    }
}

/// Whether every gate from `i` on can act on words of `n` qubits wherever a run
/// has it act. A gate that finds nothing to act on may be any.
pub open spec fn run_can_act<S: Arith>(
    st: Settings<S>,
    gates: Seq<Gate>,
    i: int,
    s: Seq<Entry<S>>,
    n: int,
) -> bool
    decreases gates.len() - i,
{
    if i < 0 || i >= gates.len() {
        true
    } else {
        &&& touches(gates[i], s) && pruned(st, gates, i, s).len() > 0 ==> can_act(gates[i], n)
        &&& run_can_act(st, gates, i + 1, stepped(st, gates, i, s), n)
    }
}

/// Whether a word is I or Z on every qubit, and so has an expectation value on the
/// all-zero state.
pub open spec fn is_diagonal(w: Seq<u8>) -> bool {
    all_clear(xy_support(w))
}

/// The terms of the expectation value of a sum on the all-zero state.
pub open spec fn expectation<S>(s: Seq<Entry<S>>) -> Seq<Term<S>> {
    diagonal_part(s).map_values(|e: Entry<S>| e.term)
}

/// The entries of a sum whose words are diagonal.
pub open spec fn diagonal_part<S>(s: Seq<Entry<S>>) -> Seq<Entry<S>> {
    s.filter(|e: Entry<S>| is_diagonal(e.word))
}

} // verus!
