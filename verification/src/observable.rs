//! What a result is worth: the expectation value of the observable in the state that
//! the circuit makes of the all-zero state.
//!
//! A Pauli sum with the angles filled in is an element of the Pauli algebra. The
//! circuit conjugates it, and the terms that are left add up to the value of the
//! conjugate in the all-zero state.

use vstd::prelude::*;

use crate::bits::{is_word, x_part, xy_support};
use crate::conjugation::{
    agree, all_turns, from_real, is_pauli, is_turn, left_all, lemma_conjugate_is_unique,
    lemma_left_all_respects, lemma_rest, lemma_turn_all_adds, lemma_turn_all_concat,
    lemma_turn_all_respects, lemma_turns_conjugate, lemma_words, right_all, sum, times_i, turn,
    turn_all, word_phase, word_product, Element, Turn,
};
use crate::model::{
    branch_term, branches, evolved, expectation, images, is_diagonal, param_index, propagated,
    Branch, Entry, Gate, Settings, Term,
};
use crate::norm::{lemma_branch_term, lemma_mul, term_at, terms_value};
use crate::pruning::{
    all_proper, all_words, evolved_through, has_word, is_proper, lemma_evolved_words,
    lemma_run_is_composition, truncates_nothing,
};
use crate::reorder::{
    lemma_every_filter, lemma_flat_map_empty, lemma_occurrences_add, lemma_occurrences_push,
    lemma_same_by_occurrences, lemma_same_contains, lemma_same_len, occurrences, same_items,
};
use crate::rules;
use crate::scalar::{is_inv_sqrt2, Arith};
use crate::truncation::has_t;
use crate::unitary::{
    branch_points, gate_turns, has_own_wires, identity_word, is_angle, lemma_gate_turns_a_word,
    lemma_gate_turns_are_turns, lemma_single, nothing, point, single, turns_by_angle, Angles,
};

verus! {

// ---------------------------------------------------------------------
// Sums as elements
// ---------------------------------------------------------------------

/// The coefficient of a word in a sum, at the given sines and cosines.
pub open spec fn value_at(s: Seq<Entry<real>>, w: Seq<u8>, sins: Seq<real>, coss: Seq<real>) -> real
    decreases s.len(),
{
    if s.len() == 0 {
        0real
    } else {
        value_at(s.drop_last(), w, sins, coss) + if s.last().word == w {
            term_at(s.last().term, sins, coss)
        } else {
            0real
        }
    }
}

/// A sum as an element of the Pauli algebra, at the given sines and cosines.
pub open spec fn element(s: Seq<Entry<real>>, sins: Seq<real>, coss: Seq<real>) -> Element {
    |w: Seq<u8>| from_real(value_at(s, w, sins, coss))
}

proof fn lemma_value_add(
    s: Seq<Entry<real>>,
    t: Seq<Entry<real>>,
    w: Seq<u8>,
    sins: Seq<real>,
    coss: Seq<real>,
)
    ensures
        value_at(s + t, w, sins, coss) == value_at(s, w, sins, coss) + value_at(t, w, sins, coss),
    decreases t.len(),
{
    if t.len() == 0 {
        assert(s + t =~= s);
    } else {
        assert((s + t).drop_last() =~= s + t.drop_last());
        lemma_value_add(s, t.drop_last(), w, sins, coss);
    }
}

proof fn lemma_element_push(
    s: Seq<Entry<real>>,
    e: Entry<real>,
    sins: Seq<real>,
    coss: Seq<real>,
    n: nat,
)
    ensures
        agree(
            n,
            element(s.push(e), sins, coss),
            sum(element(s, sins, coss), point(term_at(e.term, sins, coss), e.word)),
        ),
{
    assert(s.push(e).drop_last() =~= s);
}

/// The entries that branches make of a term.
pub open spec fn branch_entries(bs: Seq<Branch>, p: u32, t: Term<real>) -> Seq<Entry<real>> {
    Seq::new(bs.len(), |i: int| Entry { word: bs[i].word, term: branch_term(bs[i], p, t) })
}

proof fn lemma_branch_entries(
    bs: Seq<Branch>,
    p: u32,
    t: Term<real>,
    sins: Seq<real>,
    coss: Seq<real>,
    n: nat,
)
    ensures
        agree(
            n,
            element(branch_entries(bs, p, t), sins, coss),
            branch_points(bs, term_at(t, sins, coss), sins[p as int], coss[p as int]),
        ),
    decreases bs.len(),
{
    if bs.len() > 0 {
        let front: Seq<Branch> = bs.drop_last();
        let e: Entry<real> = Entry { word: bs.last().word, term: branch_term(bs.last(), p, t) };
        lemma_branch_entries(front, p, t, sins, coss, n);
        lemma_branch_term(bs.last(), p, t, sins, coss);
        assert(branch_entries(bs, p, t) =~= branch_entries(front, p, t).push(e));
        lemma_element_push(branch_entries(front, p, t), e, sins, coss, n);
    }
}

proof fn lemma_nothing_turns(ts: Seq<Turn>, n: nat)
    requires
        all_turns(ts, n),
    ensures
        agree(n, turn_all(ts, nothing()), nothing()),
    decreases ts.len(),
{
    if ts.len() > 0 {
        let t: Turn = ts[0];
        let rest: Seq<Turn> = ts.drop_first();
        lemma_rest(ts, n);
        lemma_mul(t.cos, 0real, 0real);
        lemma_mul(t.sin, 0real, 0real);
        assert(agree(n, turn(t, nothing()), nothing()));
        lemma_turn_all_respects(rest, turn(t, nothing()), nothing(), n);
        lemma_nothing_turns(rest, n);
    }
}

/// What a gate makes of a sum is what its turns make of it.
pub proof fn lemma_gate_turns_a_sum(g: Gate, s: Seq<Entry<real>>, angles: Angles, n: nat)
    requires
        is_proper(g, n as int),
        has_own_wires(g),
        turns_by_angle(g.kind) ==> is_angle(angles, param_index(g) as int),
        g.kind == rules::T ==> is_inv_sqrt2(real::spec_inv_sqrt2()),
        all_words(s, n),
    ensures
        agree(
            n,
            turn_all(gate_turns(g, n, angles), element(s, angles.sins, angles.coss)),
            element(evolved(g, s), angles.sins, angles.coss),
        ),
    decreases s.len(),
{
    let (sins, coss): (Seq<real>, Seq<real>) = (angles.sins, angles.coss);
    let ts: Seq<Turn> = gate_turns(g, n, angles);
    let act = |e: Entry<real>| images(g, e);
    lemma_gate_turns_are_turns(g, n, angles);
    if s.len() == 0 {
        assert(s =~= Seq::<Entry<real>>::empty());
        lemma_flat_map_empty::<Entry<real>, Entry<real>>(act);
        assert(agree(n, element(s, sins, coss), nothing()));
        lemma_turn_all_respects(ts, element(s, sins, coss), nothing(), n);
        lemma_nothing_turns(ts, n);
    } else {
        let front: Seq<Entry<real>> = s.drop_last();
        let e: Entry<real> = s.last();
        let x: real = term_at(e.term, sins, coss);
        assert forall|i: int| 0 <= i < front.len() implies has_word(#[trigger] front[i], n) by {
            assert((|e: Entry<real>| has_word(e, n))(s[i]));
        }
        assert((|e: Entry<real>| has_word(e, n))(s[s.len() - 1]));
        assert(s =~= front.push(e));
        lemma_gate_turns_a_sum(g, front, angles, n);
        front.lemma_flat_map_push(act, e);
        let before: Seq<Entry<real>> = evolved(g, front);
        let new: Seq<Entry<real>> = images(g, e);
        assert(evolved(g, s) == before + new);
        assert(new =~= branch_entries(branches(g, e.word), param_index(g), e.term));
        lemma_branch_entries(branches(g, e.word), param_index(g), e.term, sins, coss, n);
        lemma_gate_turns_a_word(g, e.word, angles, x);
        lemma_element_push(front, e, sins, coss, n);
        lemma_turn_all_respects(
            ts,
            element(s, sins, coss),
            sum(element(front, sins, coss), point(x, e.word)),
            n,
        );
        lemma_turn_all_adds(ts, element(front, sins, coss), point(x, e.word), n);
        assert forall|v: Seq<u8>| #[trigger] is_pauli(v, n) implies turn_all(
            ts,
            element(s, sins, coss),
        )(v) == element(evolved(g, s), sins, coss)(v) by {
            lemma_value_add(before, new, v, sins, coss);
        }
    }
}

// ---------------------------------------------------------------------
// Circuits
// ---------------------------------------------------------------------

/// The gates from `i` on as a product of turns.
pub open spec fn circuit_turns(gates: Seq<Gate>, i: int, n: nat, angles: Angles) -> Seq<Turn>
    decreases gates.len() - i,
{
    if i < 0 || i >= gates.len() {
        Seq::empty()
    } else {
        gate_turns(gates[i], n, angles) + circuit_turns(gates, i + 1, n, angles)
    }
}

/// Whether no gate names one wire twice.
pub open spec fn all_own_wires(gates: Seq<Gate>) -> bool {
    forall|i: int| 0 <= i < gates.len() ==> has_own_wires(#[trigger] gates[i])
}

/// Whether the angles that the gates turn by are angles.
pub open spec fn are_angles(gates: Seq<Gate>, angles: Angles) -> bool {
    forall|i: int|
        0 <= i < gates.len() && turns_by_angle((#[trigger] gates[i]).kind) ==> is_angle(
            angles,
            param_index(gates[i]) as int,
        )
}

proof fn lemma_circuit_turns_a_sum(
    gates: Seq<Gate>,
    i: int,
    s: Seq<Entry<real>>,
    angles: Angles,
    n: nat,
)
    requires
        0 <= i <= gates.len(),
        all_proper(gates, n),
        all_own_wires(gates),
        are_angles(gates, angles),
        has_t(gates) ==> is_inv_sqrt2(real::spec_inv_sqrt2()),
        all_words(s, n),
    ensures
        all_turns(circuit_turns(gates, i, n, angles), n),
        agree(
            n,
            turn_all(circuit_turns(gates, i, n, angles), element(s, angles.sins, angles.coss)),
            element(evolved_through(gates, i, s), angles.sins, angles.coss),
        ),
    decreases gates.len() - i,
{
    if i < gates.len() {
        let g: Gate = gates[i];
        let first: Seq<Turn> = gate_turns(g, n, angles);
        let rest: Seq<Turn> = circuit_turns(gates, i + 1, n, angles);
        let f: Element = element(s, angles.sins, angles.coss);
        let next: Seq<Entry<real>> = evolved(g, s);
        lemma_gate_turns_are_turns(g, n, angles);
        lemma_gate_turns_a_sum(g, s, angles, n);
        lemma_evolved_words(g, s, n);
        lemma_circuit_turns_a_sum(gates, i + 1, next, angles, n);
        lemma_turn_all_concat(first, rest, f);
        lemma_turn_all_respects(
            rest,
            turn_all(first, f),
            element(next, angles.sins, angles.coss),
            n,
        );
        assert forall|j: int| 0 <= j < (first + rest).len() implies is_turn(
            #[trigger] (first + rest)[j],
            n,
        ) by {
            if j < first.len() {
                assert((first + rest)[j] == first[j]);
            } else {
                assert((first + rest)[j] == rest[j - first.len()]);
            }
        }
    }
}

/// The circuit conjugates: a sum times `U` is `U` times what the gates make of the sum,
/// where `U` is the product of the gates. The one that comes first here, and that acts
/// last on a state, stands on the left. Nothing but that element has this property.
pub proof fn lemma_circuit_conjugates(
    gates: Seq<Gate>,
    s: Seq<Entry<real>>,
    angles: Angles,
    n: nat,
)
    requires
        all_proper(gates, n),
        all_own_wires(gates),
        are_angles(gates, angles),
        has_t(gates) ==> is_inv_sqrt2(real::spec_inv_sqrt2()),
        all_words(s, n),
    ensures
        ({
            let u = circuit_turns(gates, 0, n, angles);
            let before = element(s, angles.sins, angles.coss);
            let after = element(evolved_through(gates, 0, s), angles.sins, angles.coss);
            &&& agree(n, right_all(before, u), left_all(u, after))
            &&& forall|other: Element|
                agree(n, right_all(before, u), #[trigger] left_all(u, other)) ==> agree(
                    n,
                    other,
                    after,
                )
        }),
{
    let u: Seq<Turn> = circuit_turns(gates, 0, n, angles);
    let before: Element = element(s, angles.sins, angles.coss);
    let after: Element = element(evolved_through(gates, 0, s), angles.sins, angles.coss);
    lemma_circuit_turns_a_sum(gates, 0, s, angles, n);
    lemma_turns_conjugate(u, before, n);
    lemma_left_all_respects(u, turn_all(u, before), after, n);
    assert forall|other: Element|
        agree(n, right_all(before, u), #[trigger] left_all(u, other)) implies agree(
        n,
        other,
        after,
    ) by {
        lemma_conjugate_is_unique(u, other, after, n);
    }
}

// ---------------------------------------------------------------------
// The all-zero state
// ---------------------------------------------------------------------

/// The expectation value of a word in the all-zero state.
pub open spec fn in_zero_state(w: Seq<u8>) -> real {
    if is_diagonal(w) {
        1real
    } else {
        0real
    }
}

/// The expectation value of a sum in the all-zero state, at the given sines and cosines.
pub open spec fn zero_state_value(s: Seq<Entry<real>>, sins: Seq<real>, coss: Seq<real>) -> real
    decreases s.len(),
{
    if s.len() == 0 {
        0real
    } else {
        zero_state_value(s.drop_last(), sins, coss) + term_at(s.last().term, sins, coss)
            * in_zero_state(s.last().word)
    }
}

/// Whether a functional on the words on `n` qubits is the expectation value in a state
/// that Z on any qubit leaves alone: to multiply a word by such a Z, from the left or
/// from the right, changes nothing, and the identity has the value one.
pub open spec fn is_fixed_by_z(value: Element, n: nat) -> bool {
    &&& value(identity_word(n)) == from_real(1real)
    &&& forall|w: Seq<u8>, q: u32|
        is_pauli(w, n) && q < n ==> {
            let z = single(n, q, rules::AXIS_Z);
            let v = #[trigger] word_product(single(n, q, rules::AXIS_Z), w);
            &&& times_i(value(v), word_phase(z, w)) == value(w)
            &&& times_i(value(v), word_phase(w, z)) == value(w)
        }
}

/// The expectation value in the all-zero state, as a functional on words.
pub open spec fn zero_state() -> Element {
    |w: Seq<u8>| from_real(in_zero_state(w))
}

/// Z on any qubit leaves the all-zero state alone.
pub proof fn lemma_zero_state_is_fixed(n: nat)
    ensures
        is_fixed_by_z(zero_state(), n),
{
    assert forall|w: Seq<u8>, q: u32| is_pauli(w, n) && q < n implies {
        let z = single(n, q, rules::AXIS_Z);
        let v = #[trigger] word_product(single(n, q, rules::AXIS_Z), w);
        &&& times_i(zero_state()(v), word_phase(z, w)) == zero_state()(w)
        &&& times_i(zero_state()(v), word_phase(w, z)) == zero_state()(w)
    } by {
        let z: Seq<u8> = single(n, q, rules::AXIS_Z);
        let v: Seq<u8> = word_product(z, w);
        lemma_single(w, q, rules::AXIS_Z);
        lemma_words(z, w);
        assert(w[q as int] < 4);
        assert forall|i: int| 0 <= i < n implies xy_support(v)[i] == xy_support(w)[i] by {
            assert(w[i] < 4);
        }
        assert(xy_support(v) =~= xy_support(w));
        if is_diagonal(w) {
            assert(!xy_support(w)[q as int]);
        }
    }
    assert(is_diagonal(identity_word(n)));
}

/// A word with the identity on its first `k` qubits.
pub open spec fn cleared(w: Seq<u8>, k: int) -> Seq<u8> {
    Seq::new(
        w.len(),
        |i: int|
            if i < k {
                0u8
            } else {
                w[i]
            },
    )
}

proof fn lemma_cleared(value: Element, w: Seq<u8>, k: int)
    requires
        is_fixed_by_z(value, w.len()),
        is_word(w),
        is_diagonal(w),
        0 <= k <= w.len() <= u32::MAX,
    ensures
        value(cleared(w, k)) == value(w),
    decreases k,
{
    if k == 0 {
        assert(cleared(w, 0) =~= w);
    } else {
        let q: u32 = (k - 1) as u32;
        let u: Seq<u8> = cleared(w, k - 1);
        let v: Seq<u8> = cleared(w, k);
        lemma_cleared(value, w, k - 1);
        assert(w[q as int] < 4);
        assert(!xy_support(w)[q as int]);
        assert forall|i: int| 0 <= i < w.len() implies u[i] < 4 by {
            assert(w[i] < 4);
        }
        if w[q as int] == 0 {
            assert(u =~= v);
        } else {
            lemma_single(u, q, rules::AXIS_Z);
            assert(is_pauli(u, w.len()));
            assert(v =~= word_product(single(w.len(), q, rules::AXIS_Z), u));
        }
    }
}

/// No other state is left alone by Z on any qubit: a functional that is, is the
/// expectation value in the all-zero state.
pub proof fn lemma_zero_state_is_the_only_one(value: Element, n: nat)
    requires
        is_fixed_by_z(value, n),
        n <= u32::MAX,
    ensures
        agree(n, value, zero_state()),
{
    assert forall|w: Seq<u8>| #[trigger] is_pauli(w, n) implies value(w) == zero_state()(w) by {
        if is_diagonal(w) {
            lemma_cleared(value, w, n as int);
            assert(cleared(w, n as int) =~= identity_word(n));
        } else {
            let xs: Seq<bool> = xy_support(w);
            let i: int = choose|i: int| 0 <= i < xs.len() && #[trigger] xs[i];
            let q: u32 = i as u32;
            let z: Seq<u8> = single(n, q, rules::AXIS_Z);
            assert(w[i] < 4 && x_part(w[i]));
            lemma_single(w, q, rules::AXIS_Z);
            lemma_words(z, w);
            let v: Seq<u8> = word_product(single(n, q, rules::AXIS_Z), w);
            assert(times_i(value(v), word_phase(z, w)) == value(w));
            assert(times_i(value(v), word_phase(w, z)) == value(w));
        }
    }
}

/// The value of a result is the expectation value in the all-zero state.
proof fn lemma_expectation_value(s: Seq<Entry<real>>, sins: Seq<real>, coss: Seq<real>)
    ensures
        terms_value(expectation(s), sins, coss) == zero_state_value(s, sins, coss),
    decreases s.len(),
{
    reveal(Seq::filter);
    if s.len() > 0 {
        let front: Seq<Entry<real>> = s.drop_last();
        let x: real = term_at(s.last().term, sins, coss);
        lemma_expectation_value(front, sins, coss);
        lemma_mul(x, 1real, 0real);
        if is_diagonal(s.last().word) {
            assert(expectation(s).drop_last() =~= expectation(front));
        } else {
            assert(expectation(s) =~= expectation(front));
        }
    }
}

proof fn lemma_terms_value_add(
    a: Seq<Term<real>>,
    b: Seq<Term<real>>,
    sins: Seq<real>,
    coss: Seq<real>,
)
    ensures
        terms_value(a + b, sins, coss) == terms_value(a, sins, coss) + terms_value(b, sins, coss),
    decreases b.len(),
{
    if b.len() == 0 {
        assert(a + b =~= a);
    } else {
        assert((a + b).drop_last() =~= a + b.drop_last());
        lemma_terms_value_add(a, b.drop_last(), sins, coss);
    }
}

/// The order of terms is of no account to their value.
pub proof fn lemma_same_terms_value(
    a: Seq<Term<real>>,
    b: Seq<Term<real>>,
    sins: Seq<real>,
    coss: Seq<real>,
)
    requires
        same_items(a, b),
    ensures
        terms_value(a, sins, coss) == terms_value(b, sins, coss),
    decreases a.len(),
{
    lemma_same_len(a, b);
    if a.len() > 0 {
        let t: Term<real> = a.last();
        let front: Seq<Term<real>> = a.drop_last();
        assert(a =~= front.push(t));
        assert(a[a.len() - 1] == t);
        lemma_same_contains(a, b, t);
        let j: int = choose|j: int| 0 <= j < b.len() && b[j] == t;
        let before: Seq<Term<real>> = b.take(j);
        let after: Seq<Term<real>> = b.skip(j + 1);
        assert(b =~= before.push(t) + after);
        assert forall|c: Term<real>| occurrences(front, c) == #[trigger] occurrences(
            before + after,
            c,
        ) by {
            lemma_occurrences_push(front, t, c);
            lemma_occurrences_add(before, after, c);
            lemma_occurrences_add(before.push(t), after, c);
            lemma_occurrences_push(before, t, c);
        }
        lemma_same_by_occurrences(front, before + after);
        lemma_same_terms_value(front, before + after, sins, coss);
        lemma_terms_value_add(before, after, sins, coss);
        lemma_terms_value_add(before.push(t), after, sins, coss);
        assert(before.push(t).drop_last() =~= before);
    }
}

/// A sum without the entries of a word.
pub open spec fn without(s: Seq<Entry<real>>, w: Seq<u8>) -> Seq<Entry<real>> {
    s.filter(|e: Entry<real>| e.word != w)
}

proof fn lemma_without(s: Seq<Entry<real>>, w: Seq<u8>, sins: Seq<real>, coss: Seq<real>)
    ensures
        zero_state_value(s, sins, coss) == zero_state_value(without(s, w), sins, coss) + value_at(
            s,
            w,
            sins,
            coss,
        ) * in_zero_state(w),
        without(s, w).len() <= s.len(),
        forall|i: int| 0 <= i < s.len() && s[i].word == w ==> without(s, w).len() < s.len(),
        forall|v: Seq<u8>|
            #![trigger value_at(without(s, w), v, sins, coss)]
            value_at(without(s, w), v, sins, coss) == if v == w {
                0real
            } else {
                value_at(s, v, sins, coss)
            },
    decreases s.len(),
{
    reveal(Seq::filter);
    let f: real = in_zero_state(w);
    if s.len() == 0 {
        lemma_mul(f, 0real, 0real);
        lemma_mul(0real, f, 0real);
    } else {
        let front: Seq<Entry<real>> = s.drop_last();
        let e: Entry<real> = s.last();
        let x: real = term_at(e.term, sins, coss);
        let y: real = value_at(front, w, sins, coss);
        lemma_without(front, w, sins, coss);
        assert forall|i: int| 0 <= i < s.len() && s[i].word == w implies without(s, w).len()
            < s.len() by {
            if i < front.len() {
                assert(front[i].word == w);
            }
        }
        if e.word == w {
            assert(without(s, w) == without(front, w));
            assert((y + x) * f == y * f + x * f) by (nonlinear_arith);
        } else {
            assert(without(s, w) == without(front, w).push(e));
            assert(without(front, w).push(e).drop_last() =~= without(front, w));
        }
        assert forall|v: Seq<u8>|
            #![trigger value_at(without(s, w), v, sins, coss)]
            value_at(without(s, w), v, sins, coss) == if v == w {
                0real
            } else {
                value_at(s, v, sins, coss)
            } by {
            assert(value_at(without(front, w), v, sins, coss) == if v == w {
                0real
            } else {
                value_at(front, v, sins, coss)
            });
        }
    }
}

/// The expectation value of a sum depends on the sum as an element of the algebra only:
/// equal elements have equal values.
pub proof fn lemma_value_is_of_the_element(
    s: Seq<Entry<real>>,
    t: Seq<Entry<real>>,
    sins: Seq<real>,
    coss: Seq<real>,
    n: nat,
)
    requires
        all_words(s, n),
        all_words(t, n),
        agree(n, element(s, sins, coss), element(t, sins, coss)),
    ensures
        zero_state_value(s, sins, coss) == zero_state_value(t, sins, coss),
    decreases s.len() + t.len(),
{
    if s.len() + t.len() > 0 {
        let w: Seq<u8> = if s.len() > 0 {
            s[0].word
        } else {
            t[0].word
        };
        let good = |e: Entry<real>| has_word(e, n);
        let keep = |e: Entry<real>| e.word != w;
        if s.len() > 0 {
            assert(good(s[0]));
        } else {
            assert(good(t[0]));
        }
        lemma_without(s, w, sins, coss);
        lemma_without(t, w, sins, coss);
        lemma_every_filter(s, keep, good);
        lemma_every_filter(t, keep, good);
        let (a, b): (Seq<Entry<real>>, Seq<Entry<real>>) = (without(s, w), without(t, w));
        assert(is_pauli(w, n));
        assert(element(s, sins, coss)(w) == element(t, sins, coss)(w));
        assert forall|v: Seq<u8>| #[trigger] is_pauli(v, n) implies element(a, sins, coss)(v)
            == element(b, sins, coss)(v) by {
            assert(element(s, sins, coss)(v) == element(t, sins, coss)(v));
            assert(value_at(a, v, sins, coss) == if v == w {
                0real
            } else {
                value_at(s, v, sins, coss)
            });
            assert(value_at(b, v, sins, coss) == if v == w {
                0real
            } else {
                value_at(t, v, sins, coss)
            });
        }
        lemma_value_is_of_the_element(a, b, sins, coss, n);
    }
}

/// The value of a result. Without truncations, the terms that a run gives add up to the
/// expectation value, in the all-zero state, of what the gates make of the observable,
/// and that is the observable conjugated by the circuit: the element `E` with
/// `O U == U E`, where `O` is the observable and `U` the product of the gates.
pub proof fn lemma_result_is_expectation_value(
    st: Settings<real>,
    gates: Seq<Gate>,
    s: Seq<Entry<real>>,
    angles: Angles,
    n: nat,
)
    requires
        truncates_nothing(st),
        all_proper(gates, n),
        all_own_wires(gates),
        are_angles(gates, angles),
        has_t(gates) ==> is_inv_sqrt2(real::spec_inv_sqrt2()),
        all_words(s, n),
    ensures
        ({
            let (sins, coss) = (angles.sins, angles.coss);
            let u = circuit_turns(gates, 0, n, angles);
            let o = element(s, sins, coss);
            let e = evolved_through(gates, 0, s);
            &&& all_words(e, n)
            &&& terms_value(expectation(propagated(st, gates, 0, s)), sins, coss)
                == zero_state_value(e, sins, coss)
            &&& agree(n, right_all(o, u), left_all(u, element(e, sins, coss)))
            &&& forall|r: Seq<Entry<real>>|
                all_words(r, n) && agree(
                    n,
                    right_all(o, u),
                    left_all(u, #[trigger] element(r, sins, coss)),
                ) ==> terms_value(expectation(propagated(st, gates, 0, s)), sins, coss)
                    == zero_state_value(r, sins, coss)
        }),
{
    let (sins, coss): (Seq<real>, Seq<real>) = (angles.sins, angles.coss);
    let u: Seq<Turn> = circuit_turns(gates, 0, n, angles);
    let o: Element = element(s, sins, coss);
    let e: Seq<Entry<real>> = evolved_through(gates, 0, s);
    let found: Seq<Term<real>> = expectation(propagated(st, gates, 0, s));
    lemma_evolved_through_words(gates, 0, s, n);
    lemma_run_is_composition(st, gates, s, n);
    lemma_same_terms_value(found, expectation(e), sins, coss);
    lemma_expectation_value(e, sins, coss);
    lemma_circuit_conjugates(gates, s, angles, n);
    assert forall|r: Seq<Entry<real>>|
        all_words(r, n) && agree(
            n,
            right_all(o, u),
            left_all(u, #[trigger] element(r, sins, coss)),
        ) implies terms_value(found, sins, coss) == zero_state_value(r, sins, coss) by {
        assert(agree(n, element(r, sins, coss), element(e, sins, coss)));
        lemma_value_is_of_the_element(r, e, sins, coss, n);
    }
}

proof fn lemma_evolved_through_words(gates: Seq<Gate>, i: int, s: Seq<Entry<real>>, n: nat)
    requires
        0 <= i <= gates.len(),
        all_proper(gates, n),
        all_words(s, n),
    ensures
        all_words(evolved_through(gates, i, s), n),
    decreases gates.len() - i,
{
    if i < gates.len() {
        lemma_evolved_words(gates[i], s, n);
        lemma_evolved_through_words(gates, i + 1, evolved(gates[i], s), n);
    }
}

} // verus!
