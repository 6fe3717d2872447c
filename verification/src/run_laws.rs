//! What a run does, written out: how runs are put together, what one gate does to a sum,
//! what the truncations leave, and that angles are told apart by their numbers.

use vstd::prelude::*;

use crate::bits::{count_set, support, weight, xy_support};
use crate::gate_terms::lemma_low_half;
use crate::grouping::lemma_filter_all;
use crate::model::{
    branches, coefficient_kept, diagonal_part, evolved, expectation, frequency_kept, images,
    is_diagonal, names_wire, propagated, stepped, survives_pruning, survives_truncation, touches,
    touches_word, truncated, Entry, Gate, Settings, Term,
};
use crate::pruning::{
    all_proper, all_words, has_word, lemma_truncation_bounds_the_run, truncates_nothing,
};
use crate::reorder::{
    every, lemma_every_filter, lemma_flat_map_add, lemma_flat_map_empty, lemma_occurrences_filter,
    occurrences,
};
use crate::scalar::{is_inv_sqrt2, Arith};
use crate::truncation::{
    has_t, lemma_frequency_truncation_is_a_filter, lemma_real_coefficient_truncation_is_a_filter,
};

verus! {

// ---------------------------------------------------------------------
// Sums
// ---------------------------------------------------------------------

/// What a gate makes of two sums together is what it makes of the one and of the other.
/// Of one entry it makes its images, and of nothing nothing.
pub proof fn lemma_evolved_entry_by_entry<S: Arith>(
    g: Gate,
    s: Seq<Entry<S>>,
    t: Seq<Entry<S>>,
    e: Entry<S>,
)
    ensures
        evolved(g, s + t) == evolved(g, s) + evolved(g, t),
        evolved(g, seq![e]) == images(g, e),
        evolved(g, Seq::<Entry<S>>::empty()) == Seq::<Entry<S>>::empty(),
{
    let act = |e: Entry<S>| images(g, e);
    lemma_flat_map_add(s, t, act);
    seq![e].lemma_flat_map_singleton(act);
    lemma_flat_map_empty::<Entry<S>, Entry<S>>(act);
}

/// The terms of the expectation value of two sums together are those of the one and those
/// of the other. An entry whose labels are all I or Z gives its term, any other nothing.
pub proof fn lemma_expectation_entry_by_entry<S>(
    s: Seq<Entry<S>>,
    t: Seq<Entry<S>>,
    e: Entry<S>,
)
    ensures
        expectation(s + t) == expectation(s) + expectation(t),
        (forall|q: int| 0 <= q < e.word.len() ==> #[trigger] e.word[q] == 0 || e.word[q] == 2)
            ==> expectation(seq![e]) == seq![e.term],
        (exists|q: int| 0 <= q < e.word.len() && (#[trigger] e.word[q] == 1 || e.word[q] == 3))
            ==> expectation(seq![e]) == Seq::<Term<S>>::empty(),
        expectation(Seq::<Entry<S>>::empty()) == Seq::<Term<S>>::empty(),
{
    reveal(Seq::filter);
    let diagonal = |e: Entry<S>| is_diagonal(e.word);
    Seq::filter_distributes_over_add(s, t, diagonal);
    assert(expectation(s + t) =~= expectation(s) + expectation(t));
    let none: Seq<Entry<S>> = Seq::empty();
    assert(seq![e].drop_last() =~= none);
    assert(none.filter(diagonal) =~= none);
    assert(seq![e].last() == e);
    assert(seq![e].filter(diagonal) =~= if is_diagonal(e.word) {
        seq![e]
    } else {
        none
    });
    if exists|q: int| 0 <= q < e.word.len() && (#[trigger] e.word[q] == 1 || e.word[q] == 3) {
        let q: int = choose|q: int|
            0 <= q < e.word.len() && (#[trigger] e.word[q] == 1 || e.word[q] == 3);
        assert(xy_support(e.word)[q]);
        assert(expectation(seq![e]) =~= Seq::<Term<S>>::empty());
    }
    if forall|q: int| 0 <= q < e.word.len() ==> #[trigger] e.word[q] == 0 || e.word[q] == 2 {
        assert(is_diagonal(e.word)) by {
            let xs: Seq<bool> = xy_support(e.word);
            assert forall|q: int| 0 <= q < xs.len() implies !#[trigger] xs[q] by {
                assert(e.word[q] == 0 || e.word[q] == 2);
            }
        }
        assert(expectation(seq![e]) =~= seq![e.term]);
    }
    assert(expectation(none) =~= Seq::<Term<S>>::empty());
}

// ---------------------------------------------------------------------
// Runs
// ---------------------------------------------------------------------

proof fn lemma_unpruned_step<S: Arith>(
    st: Settings<S>,
    gates: Seq<Gate>,
    i: int,
    s: Seq<Entry<S>>,
)
    requires
        !st.use_dead_qubit_pruner,
        !st.use_xy_weight_pruner,
    ensures
        stepped(st, gates, i, s) == if touches(gates[i], s) {
            truncated(st, evolved(gates[i], s))
        } else {
            s
        },
{
    lemma_filter_all(s, |e: Entry<S>| survives_pruning(st, gates, i, e.word));
}

proof fn lemma_second_part<S: Arith>(
    st: Settings<S>,
    a: Seq<Gate>,
    b: Seq<Gate>,
    i: int,
    s: Seq<Entry<S>>,
)
    requires
        !st.use_dead_qubit_pruner,
        !st.use_xy_weight_pruner,
        0 <= i <= b.len(),
    ensures
        propagated(st, a + b, a.len() + i, s) == propagated(st, b, i, s),
    decreases b.len() - i,
{
    if i < b.len() {
        assert((a + b)[a.len() + i] == b[i]);
        lemma_unpruned_step(st, a + b, a.len() + i, s);
        lemma_unpruned_step(st, b, i, s);
        lemma_second_part(st, a, b, i + 1, stepped(st, b, i, s));
    }
}

proof fn lemma_first_part<S: Arith>(
    st: Settings<S>,
    a: Seq<Gate>,
    b: Seq<Gate>,
    i: int,
    s: Seq<Entry<S>>,
)
    requires
        !st.use_dead_qubit_pruner,
        !st.use_xy_weight_pruner,
        0 <= i <= a.len(),
    ensures
        propagated(st, a + b, i, s) == propagated(st, b, 0, propagated(st, a, i, s)),
    decreases a.len() - i,
{
    if i < a.len() {
        assert((a + b)[i] == a[i]);
        lemma_unpruned_step(st, a + b, i, s);
        lemma_unpruned_step(st, a, i, s);
        lemma_first_part(st, a, b, i + 1, stepped(st, a, i, s));
    } else {
        lemma_second_part(st, a, b, 0, s);
    }
}

/// Without pruners, a run through the gates of `a` and then those of `b` is a run through
/// `a`, and one of what comes out through `b`. A run through no gate changes nothing.
pub proof fn lemma_runs_follow_one_another<S: Arith>(
    st: Settings<S>,
    a: Seq<Gate>,
    b: Seq<Gate>,
    s: Seq<Entry<S>>,
)
    requires
        !st.use_dead_qubit_pruner,
        !st.use_xy_weight_pruner,
    ensures
        propagated(st, a + b, 0, s) == propagated(st, b, 0, propagated(st, a, 0, s)),
        propagated(st, Seq::<Gate>::empty(), 0, s) == s,
{
    lemma_first_part(st, a, b, 0, s);
}

/// The qubits on which a word is not the identity.
pub open spec fn busy_qubits(w: Seq<u8>) -> Set<int> {
    Set::new(|q: int| 0 <= q < w.len() && w[q] != 0)
}

pub(crate) proof fn lemma_count_is_cardinality(a: Seq<bool>)
    ensures
        Set::new(|q: int| 0 <= q < a.len() && a[q]).finite(),
        Set::new(|q: int| 0 <= q < a.len() && a[q]).len() == count_set(a),
    decreases a.len(),
{
    let all: Set<int> = Set::new(|q: int| 0 <= q < a.len() && a[q]);
    if a.len() == 0 {
        assert(all =~= Set::empty());
    } else {
        let b: Seq<bool> = a.drop_last();
        let front: Set<int> = Set::new(|q: int| 0 <= q < b.len() && b[q]);
        lemma_count_is_cardinality(b);
        if a.last() {
            assert(all =~= front.insert(a.len() - 1));
        } else {
            assert(all =~= front);
        }
    }
}

/// The weight of a word is the number of its qubits that are not the identity.
pub proof fn lemma_weight_counts_qubits(w: Seq<u8>)
    ensures
        busy_qubits(w).finite(),
        weight(w) == busy_qubits(w).len(),
{
    lemma_count_is_cardinality(support(w));
    assert(busy_qubits(w) =~= Set::new(
        |q: int| 0 <= q < support(w).len() && support(w)[q],
    ));
}

/// One gate on a sum, without pruners. Where all words are the identity on the wires that
/// it names, nothing changes, whatever the truncations. Elsewhere every entry that it
/// makes of the sum stays, as often as it is made, if its word is not the identity on at
/// most `k1` qubits, with `k1` kept in 32 bits, its term has at most `k2` sines and
/// cosines, and its coefficient reaches the threshold, as far as these truncations are in
/// use; and no other entry.
pub proof fn lemma_one_gate_run<S: Arith>(
    st: Settings<S>,
    g: Gate,
    s: Seq<Entry<S>>,
    n: nat,
    e: Entry<S>,
)
    requires
        !st.use_dead_qubit_pruner,
        !st.use_xy_weight_pruner,
        st.k2 <= usize::MAX,
        all_words(s, n),
        g.wire0 < n,
        g.wire1 >= 0 ==> g.wire1 as int % 0x1_0000_0000 < n,
    ensures
        (forall|k: int|
            0 <= k < s.len() ==> (#[trigger] s[k]).word[g.wire0 as int] == 0 && (g.wire1 >= 0
                ==> s[k].word[g.wire1 as int % 0x1_0000_0000] == 0)) ==> propagated(
            st,
            seq![g],
            0,
            s,
        ) == s,
        (exists|k: int|
            0 <= k < s.len() && ((#[trigger] s[k]).word[g.wire0 as int] != 0 || g.wire1 >= 0
                && s[k].word[g.wire1 as int % 0x1_0000_0000] != 0)) ==> occurrences(
            propagated(st, seq![g], 0, s),
            e,
        ) == if (st.k1 < 0 || busy_qubits(e.word).len()
            <= st.k1 as int % 0x1_0000_0000) && (st.k2 < 0
            || e.term.sin_idx.len() + e.term.cos_idx.len() <= st.k2) && (
        st.coeff_threshold.spec_is_nonnegative() ==> e.term.coeff.spec_reaches(
            st.coeff_threshold,
        )) {
            occurrences(evolved(g, s), e)
        } else {
            0
        },
{
    lemma_low_half(g.wire1);
    lemma_low_half(st.k1);
    let gates: Seq<Gate> = seq![g];
    let good = |e: Entry<S>| has_word(e, n);
    lemma_unpruned_step(st, gates, 0, s);
    assert(propagated(st, gates, 0, s) == propagated(st, gates, 1, stepped(st, gates, 0, s)));
    assert(propagated(st, gates, 1, stepped(st, gates, 0, s)) == stepped(st, gates, 0, s));
    lemma_occurrences_filter(evolved(g, s), |e: Entry<S>| survives_truncation(st, e), e);
    lemma_weight_counts_qubits(e.word);
    if forall|k: int|
        0 <= k < s.len() ==> (#[trigger] s[k]).word[g.wire0 as int] == 0 && (g.wire1 >= 0
            ==> s[k].word[g.wire1 as int % 0x1_0000_0000] == 0) {
        assert forall|k: int| 0 <= k < s.len() implies !#[trigger] touches_word(g, s[k].word) by {
            assert(good(s[k]));
        }
    }
    if exists|k: int|
        0 <= k < s.len() && ((#[trigger] s[k]).word[g.wire0 as int] != 0 || g.wire1 >= 0
            && s[k].word[g.wire1 as int % 0x1_0000_0000] != 0) {
        let k: int = choose|k: int|
            0 <= k < s.len() && ((#[trigger] s[k]).word[g.wire0 as int] != 0 || g.wire1 >= 0
                && s[k].word[g.wire1 as int % 0x1_0000_0000] != 0);
        let w: Seq<u8> = s[k].word;
        assert(good(s[k]));
        if w[g.wire0 as int] != 0 {
            assert(touches_word(g, w));
        } else {
            assert(w[g.wire1 as int % 0x1_0000_0000] != 0);
            assert(touches_word(g, w));
        }
    }
}

// ---------------------------------------------------------------------
// Truncations
// ---------------------------------------------------------------------

/// Where a gate acts on the observable, every term of a result has at most `k2` sines and
/// cosines.
pub proof fn lemma_frequency_is_bounded<S: Arith>(
    st: Settings<S>,
    gates: Seq<Gate>,
    s: Seq<Entry<S>>,
    j: int,
)
    requires
        0 <= st.k2 <= usize::MAX,
        0 <= j < gates.len(),
        touches(gates[j], s),
    ensures
        forall|k: int|
            0 <= k < expectation(propagated(st, gates, 0, s)).len() ==> (
            #[trigger] expectation(propagated(st, gates, 0, s))[k]).sin_idx.len() + expectation(
                propagated(st, gates, 0, s),
            )[k].cos_idx.len() <= st.k2,
{
    let out: Seq<Entry<S>> = propagated(st, gates, 0, s);
    let keep = |e: Entry<S>| survives_truncation(st, e);
    lemma_a_gate_acts(st, gates, 0, s, j);
    assert forall|k: int| 0 <= k < expectation(out).len() implies (
    #[trigger] expectation(out)[k]).sin_idx.len() + expectation(out)[k].cos_idx.len()
        <= st.k2 by {
        lemma_term_has_entry(out, k, keep);
    }
}

/// Where a gate acts on the observable, the coefficient of every term of a result reaches
/// the threshold.
pub proof fn lemma_coefficients_reach<S: Arith>(
    st: Settings<S>,
    gates: Seq<Gate>,
    s: Seq<Entry<S>>,
    j: int,
)
    requires
        st.coeff_threshold.spec_is_nonnegative(),
        0 <= j < gates.len(),
        touches(gates[j], s),
    ensures
        forall|k: int|
            0 <= k < expectation(propagated(st, gates, 0, s)).len() ==> (
            #[trigger] expectation(propagated(st, gates, 0, s))[k]).coeff.spec_reaches(
                st.coeff_threshold,
            ),
{
    let out: Seq<Entry<S>> = propagated(st, gates, 0, s);
    let keep = |e: Entry<S>| survives_truncation(st, e);
    lemma_a_gate_acts(st, gates, 0, s, j);
    assert forall|k: int| 0 <= k < expectation(out).len() implies (
    #[trigger] expectation(out)[k]).coeff.spec_reaches(st.coeff_threshold) by {
        lemma_term_has_entry(out, k, keep);
    }
}

/// In exact arithmetic, where a gate acts on the observable, the coefficient of every term
/// of a result is of a magnitude of at least the threshold.
pub proof fn lemma_coefficient_is_bounded(
    st: Settings<real>,
    gates: Seq<Gate>,
    s: Seq<Entry<real>>,
    j: int,
)
    requires
        st.coeff_threshold >= 0real,
        0 <= j < gates.len(),
        touches(gates[j], s),
    ensures
        forall|k: int|
            0 <= k < expectation(propagated(st, gates, 0, s)).len() ==> (
            #[trigger] expectation(propagated(st, gates, 0, s))[k]).coeff >= st.coeff_threshold
                || expectation(propagated(st, gates, 0, s))[k].coeff <= -st.coeff_threshold,
{
    let out: Seq<Entry<real>> = propagated(st, gates, 0, s);
    let keep = |e: Entry<real>| survives_truncation(st, e);
    lemma_a_gate_acts(st, gates, 0, s, j);
    assert forall|k: int| 0 <= k < expectation(out).len() implies (
    #[trigger] expectation(out)[k]).coeff >= st.coeff_threshold || expectation(out)[k].coeff
        <= -st.coeff_threshold by {
        lemma_term_has_entry(out, k, keep);
    }
}

/// Where a gate acts on the observable, no word that comes out of a run is other than the
/// identity on more than `k1` qubits, with `k1` kept in 32 bits.
pub proof fn lemma_weight_is_bounded<S: Arith>(
    st: Settings<S>,
    gates: Seq<Gate>,
    s: Seq<Entry<S>>,
    j: int,
)
    requires
        0 <= st.k1,
        0 <= j < gates.len(),
        touches(gates[j], s),
    ensures
        forall|k: int|
            0 <= k < propagated(st, gates, 0, s).len() ==> busy_qubits(
                (#[trigger] propagated(st, gates, 0, s)[k]).word,
            ).len() <= st.k1 as int % 0x1_0000_0000,
{
    let out: Seq<Entry<S>> = propagated(st, gates, 0, s);
    let keep = |e: Entry<S>| survives_truncation(st, e);
    lemma_low_half(st.k1);
    lemma_a_gate_acts(st, gates, 0, s, j);
    assert forall|k: int| 0 <= k < out.len() implies busy_qubits((#[trigger] out[k]).word).len()
        <= st.k1 as int % 0x1_0000_0000 by {
        assert(keep(out[k]));
        lemma_weight_counts_qubits(out[k].word);
    }
}

/// A gate that touches the observable acts, or one before it does; from then on everything
/// is within the bounds.
proof fn lemma_a_gate_acts<S: Arith>(
    st: Settings<S>,
    gates: Seq<Gate>,
    i: int,
    s: Seq<Entry<S>>,
    j: int,
)
    requires
        0 <= i <= j < gates.len(),
        touches(gates[j], s),
    ensures
        every(propagated(st, gates, i, s), |e: Entry<S>| survives_truncation(st, e)),
    decreases j - i,
{
    if touches(gates[i], s) {
        lemma_truncation_bounds_the_run(st, gates, i, s);
    } else {
        lemma_a_gate_acts(st, gates, i + 1, s, j);
    }
}

proof fn lemma_term_has_entry<S>(s: Seq<Entry<S>>, k: int, p: spec_fn(Entry<S>) -> bool)
    requires
        every(s, p),
        0 <= k < expectation(s).len(),
    ensures
        exists|e: Entry<S>| p(e) && e.term == expectation(s)[k],
{
    lemma_every_filter(s, |e: Entry<S>| is_diagonal(e.word), p);
    let e: Entry<S> = diagonal_part(s)[k];
    assert(p(e) && e.term == expectation(s)[k]);
}

/// Frequency truncation, where it is the only one: of the terms of the full result, those
/// with at most `k2` sines and cosines are all there, as often, and no others.
pub proof fn lemma_frequency_truncation_written<S: Arith>(
    st: Settings<S>,
    other: Settings<S>,
    gates: Seq<Gate>,
    s: Seq<Entry<S>>,
    n: nat,
    t: Term<S>,
)
    requires
        all_proper(gates, n),
        all_words(s, n),
        exists|j: int| 0 <= j < gates.len() && touches(#[trigger] gates[j], s),
        st.k1 < 0,
        0 <= st.k2 <= usize::MAX,
        !st.coeff_threshold.spec_is_nonnegative(),
        truncates_nothing(other),
    ensures
        occurrences(expectation(propagated(st, gates, 0, s)), t) == if t.sin_idx.len()
            + t.cos_idx.len() <= st.k2 {
            occurrences(expectation(propagated(other, gates, 0, s)), t)
        } else {
            0
        },
{
    lemma_frequency_truncation_is_a_filter(st, other, gates, s, n);
    lemma_occurrences_filter(
        expectation(propagated(other, gates, 0, s)),
        |t: Term<S>| frequency_kept(st.k2, t),
        t,
    );
}

/// Coefficient truncation in exact arithmetic, where it is the only one: of the terms of
/// the full result, those with a coefficient of a magnitude of at least the threshold are
/// all there, as often, and no others.
pub proof fn lemma_coefficient_truncation_written(
    st: Settings<real>,
    other: Settings<real>,
    gates: Seq<Gate>,
    s: Seq<Entry<real>>,
    n: nat,
    t: Term<real>,
)
    requires
        all_proper(gates, n),
        all_words(s, n),
        exists|j: int| 0 <= j < gates.len() && touches(#[trigger] gates[j], s),
        st.k1 < 0,
        st.k2 < 0,
        st.coeff_threshold >= 0real,
        truncates_nothing(other),
        has_t(gates) ==> is_inv_sqrt2(real::spec_inv_sqrt2()),
    ensures
        occurrences(expectation(propagated(st, gates, 0, s)), t) == if t.coeff
            >= st.coeff_threshold || t.coeff <= -st.coeff_threshold {
            occurrences(expectation(propagated(other, gates, 0, s)), t)
        } else {
            0
        },
{
    lemma_real_coefficient_truncation_is_a_filter(st, other, gates, s, n);
    lemma_occurrences_filter(
        expectation(propagated(other, gates, 0, s)),
        |t: Term<real>| coefficient_kept(st.coeff_threshold, t),
        t,
    );
}

/// A bound below zero switches a truncation off, and so does a threshold below zero: with
/// all of them off, every term of every path comes out.
pub proof fn lemma_negative_bounds_truncate_nothing<S: Arith>(
    st: Settings<S>,
    gates: Seq<Gate>,
    i: int,
    s: Seq<Entry<S>>,
)
    requires
        st.k1 < 0,
        st.k2 < 0,
        !st.coeff_threshold.spec_is_nonnegative(),
        !st.use_dead_qubit_pruner,
        !st.use_xy_weight_pruner,
        0 <= i < gates.len(),
    ensures
        stepped(st, gates, i, s) == s || stepped(st, gates, i, s) == evolved(gates[i], s),
{
    lemma_unpruned_step(st, gates, i, s);
    lemma_filter_all(evolved(gates[i], s), |e: Entry<S>| survives_truncation(st, e));
}

// ---------------------------------------------------------------------
// Angles
// ---------------------------------------------------------------------

/// A term with its angles renamed.
pub open spec fn renamed<S>(name: spec_fn(u32) -> u32, t: Term<S>) -> Term<S> {
    Term {
        coeff: t.coeff,
        sin_idx: t.sin_idx.map_values(name),
        cos_idx: t.cos_idx.map_values(name),
    }
}

/// An entry with its angles renamed.
pub open spec fn renamed_entry<S>(name: spec_fn(u32) -> u32, e: Entry<S>) -> Entry<S> {
    Entry { word: e.word, term: renamed(name, e.term) }
}

/// Whether a gate is another one but for its parameter, which is renamed.
pub open spec fn is_renamed(name: spec_fn(u32) -> u32, g: Gate, h: Gate) -> bool {
    &&& h.kind == g.kind
    &&& h.wire0 == g.wire0
    &&& h.wire1 == g.wire1
    &&& h.param == name(g.param as u32)
}

proof fn lemma_renamed_images<S: Arith>(
    name: spec_fn(u32) -> u32,
    g: Gate,
    h: Gate,
    e: Entry<S>,
)
    requires
        is_renamed(name, g, h),
    ensures
        images(h, renamed_entry(name, e)) == images(g, e).map_values(
            |e: Entry<S>| renamed_entry(name, e),
        ),
{
    let f = |e: Entry<S>| renamed_entry(name, e);
    let out: Seq<Entry<S>> = images(g, e);
    let new: Seq<Entry<S>> = images(h, renamed_entry(name, e));
    assert(branches(h, e.word) == branches(g, e.word));
    assert forall|i: int| 0 <= i < out.len() implies new[i] == f(out[i]) by {
        assert(new[i].term.sin_idx =~= f(out[i]).term.sin_idx);
        assert(new[i].term.cos_idx =~= f(out[i]).term.cos_idx);
    }
    assert(new =~= out.map_values(f));
}

proof fn lemma_renamed_evolved<S: Arith>(
    name: spec_fn(u32) -> u32,
    g: Gate,
    h: Gate,
    s: Seq<Entry<S>>,
)
    requires
        is_renamed(name, g, h),
    ensures
        evolved(h, s.map_values(|e: Entry<S>| renamed_entry(name, e))) == evolved(g, s).map_values(
            |e: Entry<S>| renamed_entry(name, e),
        ),
    decreases s.len(),
{
    let f = |e: Entry<S>| renamed_entry(name, e);
    let none: Seq<Entry<S>> = Seq::empty();
    if s.len() == 0 {
        assert(s =~= none);
        assert(s.map_values(f) =~= none);
        lemma_flat_map_empty::<Entry<S>, Entry<S>>(|e: Entry<S>| images(g, e));
        lemma_flat_map_empty::<Entry<S>, Entry<S>>(|e: Entry<S>| images(h, e));
        assert(none.map_values(f) =~= none);
    } else {
        let front: Seq<Entry<S>> = s.drop_last();
        let e: Entry<S> = s.last();
        lemma_renamed_evolved(name, g, h, front);
        lemma_renamed_images(name, g, h, e);
        assert(s =~= front + seq![e]);
        assert(s.map_values(f) =~= front.map_values(f) + seq![f(e)]);
        lemma_evolved_entry_by_entry(g, front, seq![e], e);
        lemma_evolved_entry_by_entry(h, front.map_values(f), seq![f(e)], f(e));
        assert(evolved(g, s).map_values(f) =~= evolved(g, front).map_values(f) + images(
            g,
            e,
        ).map_values(f));
    }
}

proof fn lemma_renamed_filter<S>(
    name: spec_fn(u32) -> u32,
    s: Seq<Entry<S>>,
    keep: spec_fn(Entry<S>) -> bool,
)
    requires
        forall|e: Entry<S>| keep(e) <==> keep(#[trigger] renamed_entry(name, e)),
    ensures
        s.map_values(|e: Entry<S>| renamed_entry(name, e)).filter(keep) == s.filter(
            keep,
        ).map_values(|e: Entry<S>| renamed_entry(name, e)),
    decreases s.len(),
{
    reveal(Seq::filter);
    let f = |e: Entry<S>| renamed_entry(name, e);
    if s.len() == 0 {
        assert(s.map_values(f).filter(keep) =~= s.filter(keep).map_values(f));
    } else {
        let front: Seq<Entry<S>> = s.drop_last();
        lemma_renamed_filter(name, front, keep);
        assert(s.map_values(f).drop_last() =~= front.map_values(f));
        assert(keep(s.last()) <==> keep(renamed_entry(name, s.last())));
        assert(s.map_values(f).filter(keep) =~= s.filter(keep).map_values(f));
    }
}

proof fn lemma_renamed_word(name: spec_fn(u32) -> u32, g: Gate, h: Gate, w: Seq<u8>)
    requires
        is_renamed(name, g, h),
    ensures
        touches_word(h, w) <==> touches_word(g, w),
{
    assert forall|q: int| names_wire(g, q) == names_wire(h, q) by {}
}

proof fn lemma_renamed_touches<S>(
    name: spec_fn(u32) -> u32,
    g: Gate,
    h: Gate,
    s: Seq<Entry<S>>,
)
    requires
        is_renamed(name, g, h),
    ensures
        touches(h, s.map_values(|e: Entry<S>| renamed_entry(name, e))) <==> touches(g, s),
{
    let t: Seq<Entry<S>> = s.map_values(|e: Entry<S>| renamed_entry(name, e));
    if touches(g, s) {
        let k: int = choose|k: int| 0 <= k < s.len() && #[trigger] touches_word(g, s[k].word);
        lemma_renamed_word(name, g, h, s[k].word);
        assert(touches_word(h, t[k].word));
    }
    if touches(h, t) {
        let k: int = choose|k: int| 0 <= k < t.len() && #[trigger] touches_word(h, t[k].word);
        lemma_renamed_word(name, g, h, s[k].word);
        assert(touches_word(g, s[k].word));
    }
}

proof fn lemma_renamed_run<S: Arith>(
    st: Settings<S>,
    name: spec_fn(u32) -> u32,
    gates: Seq<Gate>,
    others: Seq<Gate>,
    i: int,
    s: Seq<Entry<S>>,
)
    requires
        !st.use_dead_qubit_pruner,
        !st.use_xy_weight_pruner,
        others.len() == gates.len(),
        forall|j: int| 0 <= j < gates.len() ==> is_renamed(name, #[trigger] gates[j], others[j]),
        0 <= i <= gates.len(),
    ensures
        propagated(st, others, i, s.map_values(|e: Entry<S>| renamed_entry(name, e)))
            == propagated(st, gates, i, s).map_values(|e: Entry<S>| renamed_entry(name, e)),
    decreases gates.len() - i,
{
    let f = |e: Entry<S>| renamed_entry(name, e);
    if i < gates.len() {
        let (g, h): (Gate, Gate) = (gates[i], others[i]);
        assert(is_renamed(name, gates[i], others[i]));
        lemma_unpruned_step(st, gates, i, s);
        lemma_unpruned_step(st, others, i, s.map_values(f));
        lemma_renamed_evolved(name, g, h, s);
        lemma_renamed_filter(name, evolved(g, s), |e: Entry<S>| survives_truncation(st, e));
        lemma_renamed_touches(name, g, h, s);
        lemma_renamed_run(st, name, gates, others, i + 1, stepped(st, gates, i, s));
    }
}

/// Angles are told apart by their numbers alone: whatever names the angles of a circuit and
/// of an observable are given, the terms of the result are those with the angles renamed.
pub proof fn lemma_angles_can_be_renamed<S: Arith>(
    st: Settings<S>,
    name: spec_fn(u32) -> u32,
    gates: Seq<Gate>,
    others: Seq<Gate>,
    s: Seq<Entry<S>>,
)
    requires
        !st.use_dead_qubit_pruner,
        !st.use_xy_weight_pruner,
        others.len() == gates.len(),
        forall|j: int| 0 <= j < gates.len() ==> is_renamed(name, #[trigger] gates[j], others[j]),
    ensures
        expectation(propagated(st, others, 0, s.map_values(|e: Entry<S>| renamed_entry(name, e))))
            == expectation(propagated(st, gates, 0, s)).map_values(|t: Term<S>| renamed(name, t)),
{
    let f = |e: Entry<S>| renamed_entry(name, e);
    let out: Seq<Entry<S>> = propagated(st, gates, 0, s);
    lemma_renamed_run(st, name, gates, others, 0, s);
    lemma_renamed_filter(name, out, |e: Entry<S>| is_diagonal(e.word));
    assert(expectation(out.map_values(f)) =~= expectation(out).map_values(
        |t: Term<S>| renamed(name, t),
    ));
}

} // verus!
