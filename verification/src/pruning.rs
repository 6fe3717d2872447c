//! Why pruning is exact: a word that a pruner drops could never have become
//! diagonal, so that no term of the expectation value is lost.

use vstd::prelude::*;

use crate::bits::{count_set, either, is_word, lemma_count_zero, meets, within, x_part, xy_support};
use crate::grouping::{lemma_expectation_same, lemma_filter_all};
use crate::model::{
    branches, clifford_branches, cone_budget, controlled_branches, controlled_rotation_branches,
    copies, diagonal_part, evolved, expectation, gate_mask, images, is_alive, is_diagonal,
    is_reducible, is_two_qubit, named_from, names_wire, pair_code, param_index, propagated, pruned,
    put, rotation_branches, second_wire, stepped, survives_pruning, survives_truncation, t_branches,
    touches, touches_word, truncated, unchanged, wires_fit, Entry, Gate, Settings,
};
use crate::reorder::{
    every, lemma_every_filter, lemma_every_flat_map, lemma_flat_map_add, lemma_flat_map_empty,
    lemma_same_add, lemma_same_contains, lemma_same_filter, lemma_same_flat_map, lemma_same_split,
    same_items,
};
use crate::rules;
use crate::scalar::Arith;

verus! {

/// Whether a gate is of a known kind, its wires are among `n` qubits, and it names
/// a second wire where its kind has one.
pub open spec fn is_proper(g: Gate, n: int) -> bool {
    &&& g.kind <= rules::CRZ
    &&& wires_fit(g, n)
    &&& is_two_qubit(g.kind) ==> g.wire1 >= 0
}

/// The bits set in `a` and in `b`.
pub open spec fn common(a: Seq<bool>, b: Seq<bool>) -> Seq<bool> {
    Seq::new(a.len(), |q: int| a[q] && b[q])
}

/// On how many qubits of `cone` a word is X or Y.
pub open spec fn xy_weight_in(cone: Seq<bool>, w: Seq<u8>) -> nat {
    count_set(common(xy_support(w), cone))
}

/// Whether a word is X or Y on more qubits of `cone` than the gates from `i` on that
/// reach the cone can remove, one for each gate.
pub open spec fn is_stuck_in(gates: Seq<Gate>, i: int, cone: Seq<bool>, w: Seq<u8>) -> bool {
    &&& cone.len() == w.len()
    &&& xy_weight_in(cone, w) > cone_budget(gates, i, cone)
}

/// Whether a word is stuck in some cone.
pub open spec fn is_stuck(gates: Seq<Gate>, i: int, w: Seq<u8>) -> bool {
    exists|cone: Seq<bool>| is_stuck_in(gates, i, cone, w)
}

// ---------------------------------------------------------------------
// Counting
// ---------------------------------------------------------------------

proof fn lemma_count_update(a: Seq<bool>, q: int, v: bool)
    requires
        0 <= q < a.len(),
    ensures
        count_set(a.update(q, v)) + (if a[q] {
            1int
        } else {
            0int
        }) == count_set(a) + (if v {
            1int
        } else {
            0int
        }),
    decreases a.len(),
{
    if q == a.len() - 1 {
        assert(a.update(q, v).drop_last() =~= a.drop_last());
    } else {
        lemma_count_update(a.drop_last(), q, v);
        assert(a.update(q, v).drop_last() =~= a.drop_last().update(q, v));
    }
}

proof fn lemma_count_within(a: Seq<bool>, b: Seq<bool>)
    requires
        a.len() == b.len(),
        within(a, b),
    ensures
        count_set(a) <= count_set(b),
    decreases a.len(),
{
    if a.len() > 0 {
        assert forall|q: int| 0 <= q < a.drop_last().len() && #[trigger] a.drop_last()[q] implies
            b.drop_last()[q] by {
            assert(a[q]);
        }
        lemma_count_within(a.drop_last(), b.drop_last());
        if a.last() {
            assert(a[a.len() - 1]);
        }
    }
}

/// What one label more does to the XY-weight in a cone that holds its wire.
proof fn lemma_weight_update(cone: Seq<bool>, w: Seq<u8>, q: int, l: u8)
    requires
        cone.len() == w.len(),
        0 <= q < w.len(),
        cone[q],
    ensures
        xy_weight_in(cone, w.update(q, l)) + (if x_part(w[q]) {
            1int
        } else {
            0int
        }) == xy_weight_in(cone, w) + (if x_part(l) {
            1int
        } else {
            0int
        }),
{
    lemma_count_update(common(xy_support(w), cone), q, x_part(l));
    assert(common(xy_support(w.update(q, l)), cone) =~= common(xy_support(w), cone).update(
        q,
        x_part(l),
    ));
}

// ---------------------------------------------------------------------
// One gate
// ---------------------------------------------------------------------

/// Multiplying by Z keeps the x-part.
proof fn lemma_product_z(l: u8)
    requires
        l < 4,
    ensures
        x_part(rules::product(l, rules::AXIS_Z)) == x_part(l),
{
}

/// Whether the word `v` can come out of `w` at a gate, as far as X and Y go: it is a
/// word that agrees with `w` off its wires, and on them at most one X or
/// Y is gone.
pub open spec fn is_successor(g: Gate, w: Seq<u8>, v: Seq<u8>) -> bool {
    &&& is_word(v)
    &&& v.len() == w.len()
    &&& forall|q: int| 0 <= q < w.len() && !names_wire(g, q) ==> #[trigger] v[q] == w[q]
    &&& forall|cone: Seq<bool>|
        cone.len() == w.len() && within(gate_mask(g, w.len()), cone) ==> xy_weight_in(cone, w)
            <= #[trigger] xy_weight_in(cone, v) + 1
}

/// A word is its own successor.
proof fn lemma_successor_same(g: Gate, w: Seq<u8>)
    requires
        is_word(w),
    ensures
        is_successor(g, w, w),
{
}

/// One label written on the first wire of a gate.
proof fn lemma_successor_one(g: Gate, w: Seq<u8>, l: u8)
    requires
        is_word(w),
        g.wire0 < w.len(),
    ensures
        is_successor(g, w, put(w, g.wire0, l)),
{
    let v: Seq<u8> = put(w, g.wire0, l);
    assert forall|cone: Seq<bool>|
        cone.len() == w.len() && within(gate_mask(g, w.len()), cone) implies xy_weight_in(cone, w)
        <= #[trigger] xy_weight_in(cone, v) + 1 by {
        assert(gate_mask(g, w.len())[g.wire0 as int]);
        lemma_weight_update(cone, w, g.wire0 as int, l % 4);
    }
}

/// Labels written on both wires of a gate, where the first keeps its x-part.
proof fn lemma_successor_two(g: Gate, w: Seq<u8>, c: u8, t: u8)
    requires
        is_word(w),
        g.wire0 < w.len(),
        g.wire1 >= 0,
        second_wire(g) < w.len(),
        x_part(c % 4) == x_part(w[g.wire0 as int]),
    ensures
        is_successor(g, w, put(put(w, g.wire0, c), second_wire(g), t)),
{
    let first: Seq<u8> = put(w, g.wire0, c);
    let v: Seq<u8> = put(first, second_wire(g), t);
    assert forall|cone: Seq<bool>|
        cone.len() == w.len() && within(gate_mask(g, w.len()), cone) implies xy_weight_in(cone, w)
        <= #[trigger] xy_weight_in(cone, v) + 1 by {
        assert(gate_mask(g, w.len())[g.wire0 as int]);
        assert(gate_mask(g, w.len())[second_wire(g) as int]);
        lemma_weight_update(cone, w, g.wire0 as int, c % 4);
        lemma_weight_update(cone, first, second_wire(g) as int, t % 4);
    }
}

/// Labels exchanged between the wires of a gate.
proof fn lemma_successor_swap(g: Gate, w: Seq<u8>)
    requires
        is_word(w),
        g.wire0 < w.len(),
        g.wire1 >= 0,
        second_wire(g) < w.len(),
    ensures
        is_successor(
            g,
            w,
            w.update(g.wire0 as int, w[second_wire(g) as int]).update(
                second_wire(g) as int,
                w[g.wire0 as int],
            ),
        ),
{
    let a: int = g.wire0 as int;
    let b: int = second_wire(g) as int;
    let first: Seq<u8> = w.update(a, w[b]);
    let v: Seq<u8> = first.update(b, w[a]);
    assert forall|cone: Seq<bool>|
        cone.len() == w.len() && within(gate_mask(g, w.len()), cone) implies xy_weight_in(cone, w)
        <= #[trigger] xy_weight_in(cone, v) + 1 by {
        assert(gate_mask(g, w.len())[a]);
        assert(gate_mask(g, w.len())[b]);
        lemma_weight_update(cone, w, a, w[b]);
        lemma_weight_update(cone, first, b, w[a]);
    }
}

proof fn lemma_rotation_successor(g: Gate, w: Seq<u8>, out: Option<(u8, i8)>, k: int)
    requires
        is_word(w),
        g.wire0 < w.len(),
        0 <= k < rotation_branches(w, g.wire0, out).len(),
    ensures
        is_successor(g, w, rotation_branches(w, g.wire0, out)[k].word),
{
    lemma_successor_same(g, w);
    if let Some((l, sign)) = out {
        lemma_successor_one(g, w, l);
    }
}

proof fn lemma_clifford_successor(g: Gate, w: Seq<u8>, out: Option<(u8, i8)>, k: int)
    requires
        is_word(w),
        g.wire0 < w.len(),
        0 <= k < clifford_branches(w, g.wire0, out).len(),
    ensures
        is_successor(g, w, clifford_branches(w, g.wire0, out)[k].word),
{
    lemma_successor_same(g, w);
    if let Some((l, sign)) = out {
        lemma_successor_one(g, w, l);
    }
}

proof fn lemma_t_successor(g: Gate, w: Seq<u8>, out: Option<((u8, bool), (u8, bool))>, k: int)
    requires
        is_word(w),
        g.wire0 < w.len(),
        0 <= k < t_branches(w, g.wire0, out).len(),
    ensures
        is_successor(g, w, t_branches(w, g.wire0, out)[k].word),
{
    lemma_successor_same(g, w);
    if let Some(((l1, neg1), (l2, neg2))) = out {
        lemma_successor_one(g, w, l1);
        lemma_successor_one(g, w, l2);
    }
}

/// The control of a controlled gate keeps its x-part.
proof fn lemma_control_keeps_x_part(axis: u8, code: u8)
    requires
        code < 16,
    ensures
        rules::controlled_code(axis, code) matches Some((c, t, sign)) ==> x_part(c % 4) == x_part(
            code / 4,
        ),
        rules::controlled_turned_code(axis, code) matches Some(bs) ==> forall|i: int|
            0 <= i < bs.len() ==> x_part((#[trigger] bs[i]).0 % 4) == x_part(code / 4),
{
    lemma_product_z(code / 4);
}

proof fn lemma_controlled_successor(g: Gate, w: Seq<u8>, axis: u8, k: int)
    requires
        is_word(w),
        g.wire0 < w.len(),
        g.wire1 >= 0,
        second_wire(g) < w.len(),
        0 <= k < controlled_branches(
            w,
            g.wire0,
            second_wire(g),
            rules::controlled_code(axis, pair_code(w, g.wire0, second_wire(g))),
        ).len(),
    ensures
        is_successor(
            g,
            w,
            controlled_branches(
                w,
                g.wire0,
                second_wire(g),
                rules::controlled_code(axis, pair_code(w, g.wire0, second_wire(g))),
            )[k].word,
        ),
{
    let code: u8 = pair_code(w, g.wire0, second_wire(g));
    assert(w[g.wire0 as int] < 4 && w[second_wire(g) as int] < 4);
    lemma_successor_same(g, w);
    lemma_control_keeps_x_part(axis, code);
    if let Some((c, t, sign)) = rules::controlled_code(axis, code) {
        lemma_successor_two(g, w, c, t);
    }
}

proof fn lemma_controlled_rotation_successor(g: Gate, w: Seq<u8>, axis: u8, k: int)
    requires
        is_word(w),
        g.wire0 < w.len(),
        g.wire1 >= 0,
        second_wire(g) < w.len(),
        0 <= k < controlled_rotation_branches(
            w,
            g.wire0,
            second_wire(g),
            rules::controlled_turned_code(axis, pair_code(w, g.wire0, second_wire(g))),
        ).len(),
    ensures
        is_successor(
            g,
            w,
            controlled_rotation_branches(
                w,
                g.wire0,
                second_wire(g),
                rules::controlled_turned_code(axis, pair_code(w, g.wire0, second_wire(g))),
            )[k].word,
        ),
{
    let code: u8 = pair_code(w, g.wire0, second_wire(g));
    assert(w[g.wire0 as int] < 4 && w[second_wire(g) as int] < 4);
    lemma_successor_same(g, w);
    lemma_control_keeps_x_part(axis, code);
    if let Some(bs) = rules::controlled_turned_code(axis, code) {
        assert(x_part(bs[k].0 % 4) == x_part(code / 4));
        lemma_successor_two(g, w, bs[k].0, bs[k].1);
    }
}

/// A gate takes at most one X or Y from a word, and leaves the qubits off its wires
/// as they are.
pub proof fn lemma_gate_removes_at_most_one(g: Gate, w: Seq<u8>, k: int)
    requires
        is_proper(g, w.len() as int),
        is_word(w),
        0 <= k < branches(g, w).len(),
    ensures
        is_successor(g, w, branches(g, w)[k].word),
{
    let l: u8 = w[g.wire0 as int];
    match g.kind {
        rules::RX => lemma_rotation_successor(g, w, rules::turned(rules::AXIS_X, l), k),
        rules::RY => lemma_rotation_successor(g, w, rules::turned(rules::AXIS_Y, l), k),
        rules::RZ => lemma_rotation_successor(g, w, rules::turned(rules::AXIS_Z, l), k),
        rules::H => lemma_clifford_successor(g, w, rules::hadamard(l), k),
        rules::S => lemma_clifford_successor(g, w, rules::turned(rules::AXIS_Z, l), k),
        rules::SX => lemma_clifford_successor(g, w, rules::turned(rules::AXIS_X, l), k),
        rules::T => lemma_t_successor(g, w, rules::eighth_turned(l), k),
        rules::SWAP => lemma_successor_swap(g, w),
        rules::CNOT => lemma_controlled_successor(g, w, rules::AXIS_X, k),
        rules::CY => lemma_controlled_successor(g, w, rules::AXIS_Y, k),
        rules::CZ => lemma_controlled_successor(g, w, rules::AXIS_Z, k),
        rules::CRX => lemma_controlled_rotation_successor(g, w, rules::AXIS_X, k),
        rules::CRY => lemma_controlled_rotation_successor(g, w, rules::AXIS_Y, k),
        _ => lemma_controlled_rotation_successor(g, w, rules::AXIS_Z, k),
    }
}

/// A gate leaves alone a word that is the identity on its wires.
pub proof fn lemma_untouched_word_stays(g: Gate, w: Seq<u8>)
    requires
        is_proper(g, w.len() as int),
        !touches_word(g, w),
    ensures
        branches(g, w) == unchanged(w),
{
    assert(w[g.wire0 as int] == 0) by {
        assert(names_wire(g, g.wire0 as int));
    }
    if is_two_qubit(g.kind) {
        let q: int = second_wire(g) as int;
        assert(w[q] == 0) by {
            assert(names_wire(g, q));
        }
        assert(pair_code(w, g.wire0, second_wire(g)) == 0);
        assert(w.update(g.wire0 as int, w[q]).update(q, w[g.wire0 as int]) =~= w);
    }
}

proof fn lemma_image_of_unchanged<S: Arith>(g: Gate, e: Entry<S>)
    requires
        branches(g, e.word) == unchanged(e.word),
    ensures
        images(g, e) == seq![e],
{
    let p: u32 = param_index(g);
    assert(e.term.sin_idx + copies(p, 0) =~= e.term.sin_idx);
    assert(e.term.cos_idx + copies(p, 0) =~= e.term.cos_idx);
    assert(images(g, e) =~= seq![e]);
}

/// A gate that touches no word of a sum leaves the sum as it is, so that it can be
/// skipped.
pub proof fn lemma_untouched_sum_stays<S: Arith>(g: Gate, s: Seq<Entry<S>>)
    requires
        forall|i: int| 0 <= i < s.len() ==> is_proper(g, (#[trigger] s[i]).word.len() as int),
        !touches(g, s),
    ensures
        evolved(g, s) == s,
    decreases s.len(),
{
    let act = |e: Entry<S>| images(g, e);
    if s.len() == 0 {
        assert(s =~= Seq::<Entry<S>>::empty());
        lemma_flat_map_empty::<Entry<S>, Entry<S>>(act);
    } else {
        let front: Seq<Entry<S>> = s.drop_last();
        let e: Entry<S> = s.last();
        assert(s =~= front.push(e));
        assert forall|i: int| 0 <= i < front.len() implies is_proper(
            g,
            (#[trigger] front[i]).word.len() as int,
        ) && !touches_word(g, front[i].word) by {
            assert(front[i] == s[i]);
            assert(!touches_word(g, s[i].word));
        }
        lemma_untouched_sum_stays(g, front);
        assert(!touches_word(g, s[s.len() - 1].word));
        assert(is_proper(g, s[s.len() - 1].word.len() as int));
        lemma_untouched_word_stays(g, e.word);
        lemma_image_of_unchanged(g, e);
        front.lemma_flat_map_push(act, e);
        assert(front + seq![e] =~= s);
    }
}

// ---------------------------------------------------------------------
// Stuck words
// ---------------------------------------------------------------------

/// What comes out of a stuck word is stuck.
proof fn lemma_stuck_step(gates: Seq<Gate>, i: int, w: Seq<u8>, v: Seq<u8>)
    requires
        0 <= i < gates.len(),
        is_stuck(gates, i, w),
        is_successor(gates[i], w, v),
    ensures
        is_stuck(gates, i + 1, v),
{
    let g: Gate = gates[i];
    let cone: Seq<bool> = choose|cone: Seq<bool>| is_stuck_in(gates, i, cone, w);
    let mask: Seq<bool> = gate_mask(g, cone.len());
    if meets(mask, cone) {
        let wider: Seq<bool> = either(cone, mask);
        assert(within(gate_mask(g, w.len()), wider));
        lemma_count_within(common(xy_support(w), cone), common(xy_support(w), wider));
        assert(xy_weight_in(wider, w) <= xy_weight_in(wider, v) + 1);
        assert(is_stuck_in(gates, i + 1, wider, v));
    } else {
        assert forall|q: int| 0 <= q < w.len() implies common(xy_support(v), cone)[q] == common(
            xy_support(w),
            cone,
        )[q] by {
            if cone[q] {
                assert(!mask[q]);
                assert(v[q] == w[q]);
            }
        }
        assert(common(xy_support(v), cone) =~= common(xy_support(w), cone));
        assert(is_stuck_in(gates, i + 1, cone, v));
    }
}

/// A word that is stuck when no gate is left is not diagonal.
proof fn lemma_stuck_is_not_diagonal(gates: Seq<Gate>, i: int, w: Seq<u8>)
    requires
        is_stuck(gates, i, w),
    ensures
        !is_diagonal(w),
{
    let cone: Seq<bool> = choose|cone: Seq<bool>| is_stuck_in(gates, i, cone, w);
    let inside: Seq<bool> = common(xy_support(w), cone);
    lemma_count_zero(inside);
    let q: int = choose|q: int| 0 <= q < inside.len() && #[trigger] inside[q];
    assert(xy_support(w)[q]);
}

/// Gates that do not name a qubit are not in its cone.
proof fn lemma_unnamed_cone(gates: Seq<Gate>, i: int, q: int, n: nat)
    requires
        0 <= q < n,
        0 <= i <= gates.len(),
        forall|j: int| i <= j < gates.len() ==> !names_wire(#[trigger] gates[j], q),
    ensures
        cone_budget(gates, i, Seq::new(n, |p: int| p == q)) == 0,
    decreases gates.len() - i,
{
    let cone: Seq<bool> = Seq::new(n, |p: int| p == q);
    if i < gates.len() {
        let mask: Seq<bool> = gate_mask(gates[i], n);
        assert(!mask[q]);
        assert(!meets(mask, cone));
        lemma_unnamed_cone(gates, i + 1, q, n);
    }
}

/// A word that is X or Y on a qubit that no gate names any more is stuck.
proof fn lemma_dead_is_stuck(gates: Seq<Gate>, i: int, w: Seq<u8>)
    requires
        0 <= i <= gates.len(),
        !is_alive(gates, i, w),
    ensures
        is_stuck(gates, i, w),
{
    let named: Seq<bool> = named_from(gates, i, w.len());
    let xs: Seq<bool> = xy_support(w);
    let q: int = choose|q: int| 0 <= q < xs.len() && #[trigger] xs[q] && !named[q];
    let cone: Seq<bool> = Seq::new(w.len(), |p: int| p == q);
    assert forall|j: int| i <= j < gates.len() implies !names_wire(#[trigger] gates[j], q) by {
        if names_wire(gates[j], q) {
            assert(named[q]);
        }
    }
    lemma_unnamed_cone(gates, i, q, w.len());
    let inside: Seq<bool> = common(xs, cone);
    lemma_count_zero(inside);
    assert(inside[q]);
    assert(is_stuck_in(gates, i, cone, w));
}

/// A word whose XY-weight exceeds what its causal cone can remove is stuck.
proof fn lemma_irreducible_is_stuck(gates: Seq<Gate>, i: int, w: Seq<u8>)
    requires
        !is_reducible(gates, i, w),
    ensures
        is_stuck(gates, i, w),
{
    let cone: Seq<bool> = xy_support(w);
    assert(common(cone, cone) =~= cone);
    assert(is_stuck_in(gates, i, cone, w));
}

/// The pruners drop stuck words only.
proof fn lemma_pruned_away_is_stuck<S>(st: Settings<S>, gates: Seq<Gate>, i: int, w: Seq<u8>)
    requires
        0 <= i <= gates.len(),
        !survives_pruning(st, gates, i, w),
    ensures
        is_stuck(gates, i, w),
{
    if st.use_dead_qubit_pruner && !is_alive(gates, i, w) {
        lemma_dead_is_stuck(gates, i, w);
    } else {
        lemma_irreducible_is_stuck(gates, i, w);
    }
}

/// Whether the word of an entry is a Pauli word on `n` qubits.
pub open spec fn has_word<S>(e: Entry<S>, n: nat) -> bool {
    is_word(e.word) && e.word.len() == n
}

/// Whether every word of a sum is a Pauli word on `n` qubits.
pub open spec fn all_words<S>(s: Seq<Entry<S>>, n: nat) -> bool {
    every(s, |e: Entry<S>| has_word(e, n))
}

/// Whether every word of a sum is stuck.
pub open spec fn all_stuck<S>(gates: Seq<Gate>, i: int, s: Seq<Entry<S>>) -> bool {
    every(s, |e: Entry<S>| is_stuck(gates, i, e.word))
}

/// Whether every gate is proper on `n` qubits.
pub open spec fn all_proper(gates: Seq<Gate>, n: nat) -> bool {
    forall|i: int| 0 <= i < gates.len() ==> is_proper(#[trigger] gates[i], n as int)
}

// ---------------------------------------------------------------------
// Two runs
// ---------------------------------------------------------------------

/// Gates make Pauli words of Pauli words.
pub proof fn lemma_evolved_words<S: Arith>(g: Gate, s: Seq<Entry<S>>, n: nat)
    requires
        is_proper(g, n as int),
        all_words(s, n),
    ensures
        all_words(evolved(g, s), n),
{
    let act = |e: Entry<S>| images(g, e);
    let p = |e: Entry<S>| has_word(e, n);
    assert forall|e: Entry<S>| #[trigger] p(e) implies every(act(e), p) by {
        assert forall|k: int| 0 <= k < images(g, e).len() implies p(#[trigger] images(g, e)[k]) by {
            lemma_gate_removes_at_most_one(g, e.word, k);
        }
    }
    lemma_every_flat_map(s, act, p, p);
}

proof fn lemma_evolved_stuck<S: Arith>(gates: Seq<Gate>, i: int, s: Seq<Entry<S>>, n: nat)
    requires
        0 <= i < gates.len(),
        is_proper(gates[i], n as int),
        all_words(s, n),
        all_stuck(gates, i, s),
    ensures
        all_stuck(gates, i + 1, evolved(gates[i], s)),
{
    let g: Gate = gates[i];
    let act = |e: Entry<S>| images(g, e);
    let p = |e: Entry<S>| has_word(e, n) && is_stuck(gates, i, e.word);
    let q = |e: Entry<S>| is_stuck(gates, i + 1, e.word);
    assert(every(s, p)) by {
        assert forall|k: int| 0 <= k < s.len() implies p(#[trigger] s[k]) by {
            assert((|e: Entry<S>| has_word(e, n))(s[k]));
            assert((|e: Entry<S>| is_stuck(gates, i, e.word))(s[k]));
        }
    }
    assert forall|e: Entry<S>| #[trigger] p(e) implies every(act(e), q) by {
        assert forall|k: int| 0 <= k < images(g, e).len() implies q(#[trigger] images(g, e)[k]) by {
            lemma_gate_removes_at_most_one(g, e.word, k);
            lemma_stuck_step(gates, i, e.word, branches(g, e.word)[k].word);
        }
    }
    lemma_every_flat_map(s, act, p, q);
}

/// A sum that does not act keeps its stuck words stuck.
proof fn lemma_idle_stuck<S>(gates: Seq<Gate>, i: int, s: Seq<Entry<S>>, n: nat)
    requires
        0 <= i < gates.len(),
        all_words(s, n),
        all_stuck(gates, i, s),
    ensures
        all_stuck(gates, i + 1, s),
{
    assert forall|k: int| 0 <= k < s.len() implies is_stuck(gates, i + 1, (#[trigger] s[k]).word) by {
        assert((|e: Entry<S>| has_word(e, n))(s[k]));
        assert((|e: Entry<S>| is_stuck(gates, i, e.word))(s[k]));
        lemma_successor_same(gates[i], s[k].word);
        lemma_stuck_step(gates, i, s[k].word, s[k].word);
    }
}

/// The settings without pruners.
pub open spec fn unpruned<S>(st: Settings<S>) -> Settings<S> {
    Settings { use_dead_qubit_pruner: false, use_xy_weight_pruner: false, ..st }
}

/// What a gate makes of two sums together, truncated.
proof fn lemma_act_on_both<S: Arith>(
    st: Settings<S>,
    g: Gate,
    b: Seq<Entry<S>>,
    a: Seq<Entry<S>>,
    d: Seq<Entry<S>>,
)
    requires
        same_items(b, a + d),
    ensures
        same_items(
            truncated(st, evolved(g, b)),
            truncated(st, evolved(g, a)) + truncated(st, evolved(g, d)),
        ),
{
    let act = |e: Entry<S>| images(g, e);
    let keep = |e: Entry<S>| survives_truncation(st, e);
    lemma_same_flat_map(b, a + d, act);
    lemma_flat_map_add(a, d, act);
    lemma_same_filter(evolved(g, b), evolved(g, a) + evolved(g, d), keep);
    Seq::filter_distributes_over_add(evolved(g, a), evolved(g, d), keep);
}

proof fn lemma_touches_part<S>(g: Gate, b: Seq<Entry<S>>, a: Seq<Entry<S>>, d: Seq<Entry<S>>)
    requires
        same_items(b, a + d),
    ensures
        touches(g, a) ==> touches(g, b),
        touches(g, b) && d.len() == 0 ==> touches(g, a),
{
    if touches(g, a) {
        let i: int = choose|i: int| 0 <= i < a.len() && #[trigger] touches_word(g, a[i].word);
        assert((a + d)[i] == a[i]);
        assert((a + d).contains(a[i]));
        lemma_same_contains(b, a + d, a[i]);
        let j: int = choose|j: int| 0 <= j < b.len() && b[j] == a[i];
        assert(touches_word(g, b[j].word));
    }
    if touches(g, b) && d.len() == 0 {
        let i: int = choose|i: int| 0 <= i < b.len() && #[trigger] touches_word(g, b[i].word);
        assert(a + d =~= a);
        assert(b.contains(b[i]));
        lemma_same_contains(b, a + d, b[i]);
        let j: int = choose|j: int| 0 <= j < a.len() && a[j] == b[i];
        assert(touches_word(g, a[j].word));
    }
}

/// One step of two runs, where the one run holds stuck words `d` besides those of
/// the other: so it does after the step.
proof fn lemma_runs_stay_together<S: Arith>(
    st: Settings<S>,
    gates: Seq<Gate>,
    i: int,
    a: Seq<Entry<S>>,
    b: Seq<Entry<S>>,
    d: Seq<Entry<S>>,
    n: nat,
) -> (next: Seq<Entry<S>>)
    requires
        0 <= i < gates.len(),
        is_proper(gates[i], n as int),
        all_words(a, n),
        all_words(d, n),
        all_stuck(gates, i, d),
        same_items(b, a + d),
        d.len() == 0 || every(a, |e: Entry<S>| survives_truncation(st, e)),
    ensures
        all_words(stepped(st, gates, i, a), n),
        all_words(next, n),
        all_stuck(gates, i + 1, next),
        same_items(stepped(unpruned(st), gates, i, b), stepped(st, gates, i, a) + next),
        next.len() == 0 || every(
            stepped(st, gates, i, a),
            |e: Entry<S>| survives_truncation(st, e),
        ),
{
    let g: Gate = gates[i];
    let keep = |e: Entry<S>| survives_truncation(st, e);
    let good = |e: Entry<S>| has_word(e, n);
    lemma_touches_part(g, b, a, d);
    if touches(g, b) {
        let open = |e: Entry<S>| survives_pruning(unpruned(st), gates, i, e.word);
        lemma_filter_all(b, open);
        assert((|e: Entry<S>| survives_truncation(unpruned(st), e)) =~= keep);
        assert(stepped(unpruned(st), gates, i, b) == truncated(st, evolved(g, b)));
        lemma_act_on_both(st, g, b, a, d);
        let d1: Seq<Entry<S>> = truncated(st, evolved(g, d));
        lemma_evolved_words(g, d, n);
        lemma_evolved_stuck(gates, i, d, n);
        lemma_every_filter(evolved(g, d), keep, good);
        lemma_every_filter(evolved(g, d), keep, |e: Entry<S>| is_stuck(gates, i + 1, e.word));
        if touches(g, a) {
            let pass = |e: Entry<S>| survives_pruning(st, gates, i, e.word);
            let stop = |e: Entry<S>| !survives_pruning(st, gates, i, e.word);
            let kept: Seq<Entry<S>> = pruned(st, gates, i, a);
            let rest: Seq<Entry<S>> = a.filter(stop);
            lemma_same_split(a, pass, stop);
            lemma_act_on_both(st, g, a, kept, rest);
            lemma_every_filter(a, pass, good);
            lemma_every_filter(a, stop, good);
            assert forall|k: int| 0 <= k < rest.len() implies is_stuck(
                gates,
                i,
                (#[trigger] rest[k]).word,
            ) by {
                assert(stop(rest[k]));
                lemma_pruned_away_is_stuck(st, gates, i, rest[k].word);
            }
            lemma_evolved_words(g, kept, n);
            lemma_evolved_words(g, rest, n);
            lemma_evolved_stuck(gates, i, rest, n);
            lemma_every_filter(evolved(g, kept), keep, good);
            lemma_every_filter(evolved(g, rest), keep, good);
            lemma_every_filter(evolved(g, rest), keep, |e: Entry<S>| is_stuck(gates, i + 1, e.word));
            let d2: Seq<Entry<S>> = truncated(st, evolved(g, rest));
            let after: Seq<Entry<S>> = truncated(st, evolved(g, kept));
            lemma_same_add(truncated(st, evolved(g, a)), after + d2, d1, d1);
            assert(after + d2 + d1 =~= after + (d2 + d1));
            d2 + d1
        } else {
            assert(d.len() > 0);
            assert forall|k: int| 0 <= k < a.len() implies is_proper(
                g,
                (#[trigger] a[k]).word.len() as int,
            ) by {
                assert(good(a[k]));
            }
            lemma_untouched_sum_stays(g, a);
            lemma_filter_all(a, keep);
            d1
        }
    } else {
        lemma_idle_stuck(gates, i, d, n);
        d
    }
}

proof fn lemma_runs_agree<S: Arith>(
    st: Settings<S>,
    gates: Seq<Gate>,
    i: int,
    a: Seq<Entry<S>>,
    b: Seq<Entry<S>>,
    d: Seq<Entry<S>>,
    n: nat,
)
    requires
        0 <= i <= gates.len(),
        all_proper(gates, n),
        all_words(a, n),
        all_words(d, n),
        all_stuck(gates, i, d),
        same_items(b, a + d),
        d.len() == 0 || every(a, |e: Entry<S>| survives_truncation(st, e)),
    ensures
        same_items(
            expectation(propagated(st, gates, i, a)),
            expectation(propagated(unpruned(st), gates, i, b)),
        ),
    decreases gates.len() - i,
{
    if i < gates.len() {
        let next: Seq<Entry<S>> = lemma_runs_stay_together(st, gates, i, a, b, d, n);
        lemma_runs_agree(
            st,
            gates,
            i + 1,
            stepped(st, gates, i, a),
            stepped(unpruned(st), gates, i, b),
            next,
            n,
        );
    } else {
        let diagonal = |e: Entry<S>| is_diagonal(e.word);
        assert forall|k: int| 0 <= k < d.len() implies !diagonal(#[trigger] d[k]) by {
            assert((|e: Entry<S>| is_stuck(gates, i, e.word))(d[k]));
            lemma_stuck_is_not_diagonal(gates, i, d[k].word);
        }
        d.lemma_all_neg_filter_empty(diagonal);
        Seq::filter_distributes_over_add(a, d, diagonal);
        assert(diagonal_part(a + d) =~= diagonal_part(a));
        lemma_expectation_same(b, a + d);
    }
}

/// Pruning is exact: whichever pruners are in use, and whatever the truncations, a
/// run gives the same terms.
pub proof fn lemma_pruning_is_exact<S: Arith>(
    st: Settings<S>,
    other: Settings<S>,
    gates: Seq<Gate>,
    s: Seq<Entry<S>>,
    n: nat,
)
    requires
        all_proper(gates, n),
        all_words(s, n),
        st.k1 == other.k1,
        st.k2 == other.k2,
        st.coeff_threshold == other.coeff_threshold,
    ensures
        same_items(
            expectation(propagated(st, gates, 0, s)),
            expectation(propagated(other, gates, 0, s)),
        ),
{
    let none: Seq<Entry<S>> = Seq::empty();
    assert(s + none =~= s);
    lemma_runs_agree(st, gates, 0, s, s, none, n);
    lemma_runs_agree(other, gates, 0, s, s, none, n);
    assert(unpruned(st) == unpruned(other));
}

/// Once the entries of a sum are within the bounds of the truncations, they stay so.
pub proof fn lemma_bounds_are_kept<S: Arith>(
    st: Settings<S>,
    gates: Seq<Gate>,
    i: int,
    s: Seq<Entry<S>>,
)
    requires
        0 <= i <= gates.len(),
        every(s, |e: Entry<S>| survives_truncation(st, e)),
    ensures
        every(propagated(st, gates, i, s), |e: Entry<S>| survives_truncation(st, e)),
    decreases gates.len() - i,
{
    if i < gates.len() {
        lemma_step_is_bounded(st, gates, i, s);
        lemma_bounds_are_kept(st, gates, i + 1, stepped(st, gates, i, s));
    }
}

proof fn lemma_step_is_bounded<S: Arith>(
    st: Settings<S>,
    gates: Seq<Gate>,
    i: int,
    s: Seq<Entry<S>>,
)
    requires
        touches(gates[i], s) || every(s, |e: Entry<S>| survives_truncation(st, e)),
    ensures
        every(stepped(st, gates, i, s), |e: Entry<S>| survives_truncation(st, e)),
{
    if touches(gates[i], s) {
        let all = |e: Entry<S>| true;
        let acted: Seq<Entry<S>> = evolved(gates[i], pruned(st, gates, i, s));
        lemma_every_filter(acted, |e: Entry<S>| survives_truncation(st, e), all);
    }
}

/// Where a gate acts, everything that comes out of the run is within the bounds of the
/// truncations.
pub proof fn lemma_truncation_bounds_the_run<S: Arith>(
    st: Settings<S>,
    gates: Seq<Gate>,
    i: int,
    s: Seq<Entry<S>>,
)
    requires
        0 <= i < gates.len(),
        touches(gates[i], s),
    ensures
        every(propagated(st, gates, i, s), |e: Entry<S>| survives_truncation(st, e)),
{
    lemma_step_is_bounded(st, gates, i, s);
    lemma_bounds_are_kept(st, gates, i + 1, stepped(st, gates, i, s));
}

/// Whether no truncation is in use.
pub open spec fn truncates_nothing<S: Arith>(st: Settings<S>) -> bool {
    &&& st.k1 < 0
    &&& st.k2 < 0
    &&& !st.coeff_threshold.spec_is_nonnegative()
}

/// What the gates from `i` on make of a sum, one after the other.
pub open spec fn evolved_through<S: Arith>(
    gates: Seq<Gate>,
    i: int,
    s: Seq<Entry<S>>,
) -> Seq<Entry<S>>
    decreases gates.len() - i,
{
    if i < 0 || i >= gates.len() {
        s
    } else {
        evolved_through(gates, i + 1, evolved(gates[i], s))
    }
}

/// Without pruners and truncations, a run is the composition of its gates.
pub proof fn lemma_bare_run<S: Arith>(
    st: Settings<S>,
    gates: Seq<Gate>,
    i: int,
    s: Seq<Entry<S>>,
    n: nat,
)
    requires
        0 <= i <= gates.len(),
        all_proper(gates, n),
        all_words(s, n),
        truncates_nothing(st),
    ensures
        propagated(unpruned(st), gates, i, s) == evolved_through(gates, i, s),
    decreases gates.len() - i,
{
    if i < gates.len() {
        let g: Gate = gates[i];
        let bare: Settings<S> = unpruned(st);
        lemma_filter_all(s, |e: Entry<S>| survives_pruning(bare, gates, i, e.word));
        lemma_filter_all(evolved(g, s), |e: Entry<S>| survives_truncation(bare, e));
        assert(is_proper(g, n as int));
        if !touches(g, s) {
            assert forall|k: int| 0 <= k < s.len() implies is_proper(
                g,
                (#[trigger] s[k]).word.len() as int,
            ) by {
                assert((|e: Entry<S>| has_word(e, n))(s[k]));
            }
            lemma_untouched_sum_stays(g, s);
        }
        assert(stepped(bare, gates, i, s) == evolved(g, s));
        lemma_evolved_words(g, s, n);
        lemma_bare_run(st, gates, i + 1, evolved(g, s), n);
    }
}

/// Without truncations, a run takes the expectation value of what the gates make of
/// the sum, one after the other.
pub proof fn lemma_run_is_composition<S: Arith>(
    st: Settings<S>,
    gates: Seq<Gate>,
    s: Seq<Entry<S>>,
    n: nat,
)
    requires
        all_proper(gates, n),
        all_words(s, n),
        truncates_nothing(st),
    ensures
        same_items(
            expectation(propagated(st, gates, 0, s)),
            expectation(evolved_through(gates, 0, s)),
        ),
{
    lemma_pruning_is_exact(st, unpruned(st), gates, s, n);
    lemma_bare_run(st, gates, 0, s, n);
}

proof fn lemma_evolved_through_add<S: Arith>(
    gates: Seq<Gate>,
    i: int,
    s: Seq<Entry<S>>,
    t: Seq<Entry<S>>,
)
    ensures
        evolved_through(gates, i, s + t) == evolved_through(gates, i, s) + evolved_through(
            gates,
            i,
            t,
        ),
    decreases gates.len() - i,
{
    if 0 <= i < gates.len() {
        lemma_flat_map_add(s, t, |e: Entry<S>| images(gates[i], e));
        lemma_evolved_through_add(gates, i + 1, evolved(gates[i], s), evolved(gates[i], t));
    }
}

/// Without truncations, the terms of two sums together are the terms of the one and
/// those of the other.
pub proof fn lemma_run_is_linear<S: Arith>(
    st: Settings<S>,
    gates: Seq<Gate>,
    s: Seq<Entry<S>>,
    t: Seq<Entry<S>>,
    n: nat,
)
    requires
        all_proper(gates, n),
        all_words(s, n),
        all_words(t, n),
        truncates_nothing(st),
    ensures
        same_items(
            expectation(propagated(st, gates, 0, s + t)),
            expectation(propagated(st, gates, 0, s)) + expectation(propagated(st, gates, 0, t)),
        ),
{
    lemma_run_is_composition(st, gates, s + t, n);
    lemma_run_is_composition(st, gates, s, n);
    lemma_run_is_composition(st, gates, t, n);
    lemma_evolved_through_add(gates, 0, s, t);
    let first: Seq<Entry<S>> = evolved_through(gates, 0, s);
    let second: Seq<Entry<S>> = evolved_through(gates, 0, t);
    Seq::filter_distributes_over_add(first, second, |e: Entry<S>| is_diagonal(e.word));
    assert(expectation(first + second) =~= expectation(first) + expectation(second));
    lemma_same_add(
        expectation(propagated(st, gates, 0, s)),
        expectation(first),
        expectation(propagated(st, gates, 0, t)),
        expectation(second),
    );
}

} // verus!
