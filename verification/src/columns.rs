//! From the columns of a circuit and the words of a batch to its results, written out.
//!
//! The circuit is given by four columns and the observables by binary words. What is said
//! of a result here is said in terms of these.

use vstd::prelude::*;

use crate::batch::{
    are_expectations, batch_can_run, circuit, columns_are_full, is_gate_image, lemma_gate_image,
    lemma_proper_circuit_can_run, lemma_sum_has_words, sum_entries, WordTerm,
};
use crate::bits::{labels, resized, word, PauliKey};
use crate::evolve::{with_branches, GateSpec};
use crate::gate_terms::lemma_low_half;
use crate::grouping::{
    holds, lemma_entries_occurrences, lemma_filter_all, lemma_spread_is_evolved, spread,
};
use crate::model::{
    branch_terms, branches, can_act, entries_of, evolved, expectation, param_index, propagated,
    run_can_act, survives_pruning, terms_of, touches, touches_word, wires_fit, Branch, CoeffTerm,
    Entry, Gate, Settings, Term,
};
use crate::pauli_map::{extended, lemma_sum_at, sum_of, terms_at, Contents};
use crate::planes::{digit, lemma_label_is_two_digits};
use crate::propagate::gates_of;
use crate::pruning::is_proper;
use crate::reorder::{
    lemma_occurrences_add, lemma_occurrences_empty, lemma_occurrences_positive, occurrences,
    same_items,
};
use crate::run_laws::{
    lemma_coefficients_reach, lemma_frequency_is_bounded, lemma_frequency_truncation_written,
};
use crate::scalar::{Arith, Scalar};

verus! {

/// Whether `order` holds the rows of the columns, the last row first.
pub open spec fn are_rows(
    order: Seq<Gate>,
    kind: Seq<u8>,
    wire0: Seq<u32>,
    wire1: Seq<i64>,
    param: Seq<i64>,
) -> bool {
    &&& order.len() == kind.len()
    &&& forall|j: int|
        0 <= j < order.len() ==> {
            let row = kind.len() - 1 - j;
            &&& (#[trigger] order[j]).kind == kind[row]
            &&& order[j].wire0 == wire0[row]
            &&& order[j].wire1 == wire1[row]
            &&& order[j].param == param[row]
        }
}

/// Whether `s` holds the terms of a list, each with the word whose labels are the digits
/// of its planes, on `64 * nw` qubits.
pub open spec fn are_words<S>(s: Seq<Entry<S>>, list: Seq<WordTerm<S>>, nw: nat) -> bool {
    &&& s.len() == list.len()
    &&& forall|k: int|
        0 <= k < s.len() ==> {
            &&& (#[trigger] s[k]).word.len() == 64 * nw
            &&& s[k].term.coeff == list[k].2
            &&& s[k].term.sin_idx == list[k].3@
            &&& s[k].term.cos_idx == list[k].4@
        }
    &&& forall|k: int, q: int|
        0 <= k < s.len() && 0 <= q < 64 * nw ==> #[trigger] s[k].word[q] == digit(list[k].0@, q) + 2
            * digit(list[k].1@, q)
}

/// Whether `ts` holds the terms of a list.
pub open spec fn are_terms<S>(ts: Seq<Term<S>>, list: Seq<CoeffTerm<S>>) -> bool {
    &&& ts.len() == list.len()
    &&& forall|k: int|
        0 <= k < ts.len() ==> {
            &&& (#[trigger] ts[k]).coeff == list[k].0
            &&& ts[k].sin_idx == list[k].1@
            &&& ts[k].cos_idx == list[k].2@
        }
}

proof fn lemma_rows(
    order: Seq<Gate>,
    kind: Seq<u8>,
    wire0: Seq<u32>,
    wire1: Seq<i64>,
    param: Seq<i64>,
)
    requires
        are_rows(order, kind, wire0, wire1, param),
    ensures
        circuit(kind, wire0, wire1, param).len() == kind.len(),
        circuit(kind, wire0, wire1, param).reverse() == order,
{
    let back: Seq<Gate> = circuit(kind, wire0, wire1, param).reverse();
    assert forall|j: int| 0 <= j < order.len() implies back[j] == order[j] by {
        assert(order[j].kind == kind[kind.len() - 1 - j]);
    }
    assert(back =~= order);
}

proof fn lemma_words<S>(s: Seq<Entry<S>>, list: Seq<WordTerm<S>>, nw: nat)
    requires
        are_words(s, list, nw),
    ensures
        sum_entries(list, nw) == s,
{
    let t: Seq<Entry<S>> = sum_entries(list, nw);
    assert forall|k: int| 0 <= k < s.len() implies t[k] == s[k] by {
        let w: Seq<u8> = labels(resized(list[k].0@, nw), resized(list[k].1@, nw));
        assert(s[k].word.len() == 64 * nw);
        assert forall|q: int| 0 <= q < 64 * nw implies w[q] == s[k].word[q] by {
            lemma_label_is_two_digits(list[k].0@, list[k].1@, nw, q);
        }
        assert(w =~= s[k].word);
    }
    assert(t =~= s);
}

proof fn lemma_terms<S>(ts: Seq<Term<S>>, list: Seq<CoeffTerm<S>>)
    requires
        are_terms(ts, list),
    ensures
        terms_of(list) == ts,
{
    assert forall|k: int| 0 <= k < ts.len() implies terms_of(list)[k] == ts[k] by {
        assert(ts[k].coeff == list[k].0);
    }
    assert(terms_of(list) =~= ts);
}

/// The results of a batch, sum by sum: there is one for each sum of the batch, and it
/// holds the terms of the expectation value of what the rows of the columns make of the
/// words of that sum, the last row first.
pub proof fn lemma_batch_results<S: Scalar>(
    results: Seq<Vec<CoeffTerm<S>>>,
    st: Settings<S>,
    kind: Seq<u8>,
    wire0: Seq<u32>,
    wire1: Seq<i64>,
    param: Seq<i64>,
    batch: Seq<Vec<WordTerm<S>>>,
    nw: nat,
    i: int,
    order: Seq<Gate>,
    s: Seq<Entry<S>>,
    ts: Seq<Term<S>>,
)
    requires
        are_expectations(results, st, circuit(kind, wire0, wire1, param), batch, nw),
        0 <= i < batch.len(),
        are_rows(order, kind, wire0, wire1, param),
        are_words(s, batch[i]@, nw),
        are_terms(ts, results[i]@),
    ensures
        results.len() == batch.len(),
        ts.to_multiset() == expectation(propagated(st, order, 0, s)).to_multiset(),
{
    lemma_rows(order, kind, wire0, wire1, param);
    lemma_words(s, batch[i]@, nw);
    lemma_terms(ts, results[i]@);
    assert(same_items(
        terms_of(results[i]@),
        expectation(propagated(st, order, 0, sum_entries(batch[i]@, nw))),
    ));
}

/// Whether the wires that a row of the columns names are among `64 * nw` qubits. A second
/// wire is named where it is not negative, and is kept in 32 bits.
pub open spec fn row_fits(wire0: u32, wire1: i64, nw: nat) -> bool {
    wire0 < 64 * nw && (wire1 >= 0 ==> wire1 as int % 0x1_0000_0000 < 64 * nw)
}

/// Whether a row of the columns names a wire on which some word of a list has a digit.
pub open spec fn row_touches<S>(
    wire0: u32,
    wire1: i64,
    list: Seq<WordTerm<S>>,
    k: int,
) -> bool {
    ||| digit(list[k].0@, wire0 as int) + digit(list[k].1@, wire0 as int) > 0
    ||| wire1 >= 0 && digit(list[k].0@, wire1 as int % 0x1_0000_0000) + digit(
        list[k].1@,
        wire1 as int % 0x1_0000_0000,
    ) > 0
}

proof fn lemma_row_touches<S: Scalar>(g: Gate, list: Seq<WordTerm<S>>, nw: nat, k: int)
    requires
        g.wire0 < 64 * nw,
        g.wire1 >= 0 ==> g.wire1 as int % 0x1_0000_0000 < 64 * nw,
        0 <= k < list.len(),
        row_touches(g.wire0, g.wire1, list, k),
    ensures
        touches(g, sum_entries(list, nw)),
{
    let w: Seq<u8> = sum_entries(list, nw)[k].word;
    lemma_low_half(g.wire1);
    lemma_label_is_two_digits(list[k].0@, list[k].1@, nw, g.wire0 as int);
    if g.wire1 >= 0 {
        lemma_label_is_two_digits(
            list[k].0@,
            list[k].1@,
            nw,
            g.wire1 as int % 0x1_0000_0000,
        );
    }
    if w[g.wire0 as int] != 0 {
        assert(touches_word(g, w));
    } else {
        assert(w[g.wire1 as int % 0x1_0000_0000] != 0);
        assert(touches_word(g, w));
    }
}

/// Where a row names a wire on which a word of the sum is not the identity, every term of
/// the result has at most `k2` sines and cosines.
pub proof fn lemma_batch_frequency_is_bounded<S: Scalar>(
    results: Seq<Vec<CoeffTerm<S>>>,
    st: Settings<S>,
    kind: Seq<u8>,
    wire0: Seq<u32>,
    wire1: Seq<i64>,
    param: Seq<i64>,
    batch: Seq<Vec<WordTerm<S>>>,
    nw: nat,
    i: int,
    j: int,
    k: int,
)
    requires
        are_expectations(results, st, circuit(kind, wire0, wire1, param), batch, nw),
        0 <= i < batch.len(),
        0 <= j < kind.len(),
        0 <= k < batch[i]@.len(),
        wire0[j] < 64 * nw,
        wire1[j] >= 0 ==> wire1[j] as int % 0x1_0000_0000 < 64 * nw,
        row_touches(wire0[j], wire1[j], batch[i]@, k),
        0 <= st.k2 <= usize::MAX,
    ensures
        forall|m: int|
            0 <= m < results[i]@.len() ==> (#[trigger] results[i]@[m]).1@.len()
                + results[i]@[m].2@.len() <= st.k2,
{
    let gates: Seq<Gate> = circuit(kind, wire0, wire1, param);
    let order: Seq<Gate> = gates.reverse();
    let s: Seq<Entry<S>> = sum_entries(batch[i]@, nw);
    let full: Seq<Term<S>> = expectation(propagated(st, order, 0, s));
    let found: Seq<Term<S>> = terms_of(results[i]@);
    lemma_row_touches(gates[j], batch[i]@, nw, k);
    assert(order[kind.len() - 1 - j] == gates[j]);
    lemma_frequency_is_bounded(st, order, s, kind.len() - 1 - j);
    assert(same_items(found, full));
    assert forall|m: int| 0 <= m < results[i]@.len() implies (#[trigger] results[i]@[m]).1@.len()
        + results[i]@[m].2@.len() <= st.k2 by {
        let t: Term<S> = found[m];
        lemma_occurrences_positive(found, t);
        lemma_occurrences_positive(full, t);
        let a: int = choose|a: int| 0 <= a < full.len() && full[a] == t;
        assert(full[a].sin_idx.len() + full[a].cos_idx.len() <= st.k2);
    }
}

/// Where a row names a wire on which a word of the sum is not the identity, the coefficient
/// of every term of the result reaches the threshold.
pub proof fn lemma_batch_coefficients_reach<S: Scalar>(
    results: Seq<Vec<CoeffTerm<S>>>,
    st: Settings<S>,
    kind: Seq<u8>,
    wire0: Seq<u32>,
    wire1: Seq<i64>,
    param: Seq<i64>,
    batch: Seq<Vec<WordTerm<S>>>,
    nw: nat,
    i: int,
    j: int,
    k: int,
)
    requires
        are_expectations(results, st, circuit(kind, wire0, wire1, param), batch, nw),
        0 <= i < batch.len(),
        0 <= j < kind.len(),
        0 <= k < batch[i]@.len(),
        wire0[j] < 64 * nw,
        wire1[j] >= 0 ==> wire1[j] as int % 0x1_0000_0000 < 64 * nw,
        row_touches(wire0[j], wire1[j], batch[i]@, k),
        st.coeff_threshold.spec_is_nonnegative(),
    ensures
        forall|m: int|
            0 <= m < results[i]@.len() ==> (#[trigger] results[i]@[m]).0.spec_reaches(
                st.coeff_threshold,
            ),
{
    let gates: Seq<Gate> = circuit(kind, wire0, wire1, param);
    let order: Seq<Gate> = gates.reverse();
    let s: Seq<Entry<S>> = sum_entries(batch[i]@, nw);
    let full: Seq<Term<S>> = expectation(propagated(st, order, 0, s));
    let found: Seq<Term<S>> = terms_of(results[i]@);
    lemma_row_touches(gates[j], batch[i]@, nw, k);
    assert(order[kind.len() - 1 - j] == gates[j]);
    lemma_coefficients_reach(st, order, s, kind.len() - 1 - j);
    assert(same_items(found, full));
    assert forall|m: int| 0 <= m < results[i]@.len() implies (
    #[trigger] results[i]@[m]).0.spec_reaches(st.coeff_threshold) by {
        let t: Term<S> = found[m];
        lemma_occurrences_positive(found, t);
        lemma_occurrences_positive(full, t);
        let a: int = choose|a: int| 0 <= a < full.len() && full[a] == t;
        assert(full[a].coeff.spec_reaches(st.coeff_threshold));
    }
}

/// Two calls that differ in `k2` only, where the one has no bound and neither has another
/// truncation: of the terms of the one, the other has exactly those with at most `k2` sines
/// and cosines, each as often.
pub proof fn lemma_batch_frequency_truncation<S: Scalar>(
    results: Seq<Vec<CoeffTerm<S>>>,
    others: Seq<Vec<CoeffTerm<S>>>,
    st: Settings<S>,
    other: Settings<S>,
    kind: Seq<u8>,
    wire0: Seq<u32>,
    wire1: Seq<i64>,
    param: Seq<i64>,
    batch: Seq<Vec<WordTerm<S>>>,
    nw: nat,
    i: int,
    j: int,
    k: int,
    ts: Seq<Term<S>>,
    us: Seq<Term<S>>,
    t: Term<S>,
)
    requires
        are_expectations(results, st, circuit(kind, wire0, wire1, param), batch, nw),
        are_expectations(others, other, circuit(kind, wire0, wire1, param), batch, nw),
        forall|r: int|
            0 <= r < kind.len() ==> {
                &&& #[trigger] kind[r] <= 13
                &&& row_fits(wire0[r], wire1[r], nw)
                &&& kind[r] >= 7 ==> wire1[r] >= 0
            },
        0 <= i < batch.len(),
        0 <= j < kind.len(),
        0 <= k < batch[i]@.len(),
        row_touches(wire0[j], wire1[j], batch[i]@, k),
        0 <= st.k2 <= usize::MAX,
        st.k1 < 0,
        !st.coeff_threshold.spec_is_nonnegative(),
        other.k1 < 0,
        other.k2 < 0,
        !other.coeff_threshold.spec_is_nonnegative(),
        are_terms(ts, results[i]@),
        are_terms(us, others[i]@),
    ensures
        ts.to_multiset().count(t) == if t.sin_idx.len() + t.cos_idx.len() <= st.k2 {
            us.to_multiset().count(t)
        } else {
            0
        },
{
    let gates: Seq<Gate> = circuit(kind, wire0, wire1, param);
    let order: Seq<Gate> = gates.reverse();
    let s: Seq<Entry<S>> = sum_entries(batch[i]@, nw);
    assert(kind[j] <= 13);
    lemma_row_touches(gates[j], batch[i]@, nw, k);
    assert(order[kind.len() - 1 - j] == gates[j]);
    assert forall|r: int| 0 <= r < order.len() implies is_proper(
        #[trigger] order[r],
        (64 * nw) as int,
    ) by {
        assert(kind[kind.len() - 1 - r] <= 13);
        lemma_low_half(wire1[kind.len() - 1 - r]);
    }
    lemma_sum_has_words(batch[i]@, nw);
    lemma_terms(ts, results[i]@);
    lemma_terms(us, others[i]@);
    lemma_frequency_truncation_written(st, other, order, s, 64 * nw, t);
    assert(same_items(terms_of(results[i]@), expectation(propagated(st, order, 0, s))));
    assert(same_items(terms_of(others[i]@), expectation(propagated(other, order, 0, s))));
}

/// A circuit whose rows are of the kinds 0 to 13, on wires within the planes, with a second
/// wire from kind 7 on, can be run on every batch.
pub proof fn lemma_known_rows_can_run<S: Scalar>(
    st: Settings<S>,
    kind: Seq<u8>,
    wire0: Seq<u32>,
    wire1: Seq<i64>,
    param: Seq<i64>,
    batch: Seq<Vec<WordTerm<S>>>,
    nw: nat,
)
    requires
        forall|r: int|
            0 <= r < kind.len() ==> {
                &&& #[trigger] kind[r] <= 13
                &&& row_fits(wire0[r], wire1[r], nw)
                &&& kind[r] >= 7 ==> wire1[r] >= 0
            },
    ensures
        batch_can_run(st, circuit(kind, wire0, wire1, param), batch, nw),
{
    let gates: Seq<Gate> = circuit(kind, wire0, wire1, param);
    assert forall|r: int| 0 <= r < gates.len() implies is_proper(
        #[trigger] gates[r],
        (64 * nw) as int,
    ) by {
        assert(kind[r] <= 13);
        lemma_low_half(wire1[r]);
    }
    lemma_proper_circuit_can_run(st, gates, batch, nw);
}

/// A circuit with a wire beyond the planes cannot be run, whatever the batch.
pub proof fn lemma_wires_beyond_cannot_run<S: Scalar>(
    st: Settings<S>,
    kind: Seq<u8>,
    wire0: Seq<u32>,
    wire1: Seq<i64>,
    param: Seq<i64>,
    batch: Seq<Vec<WordTerm<S>>>,
    nw: nat,
    r: int,
)
    requires
        0 <= r < kind.len(),
        !row_fits(wire0[r], wire1[r], nw),
    ensures
        !batch_can_run(st, circuit(kind, wire0, wire1, param), batch, nw),
{
    let gates: Seq<Gate> = circuit(kind, wire0, wire1, param);
    lemma_low_half(wire1[r]);
    assert(!wires_fit(gates[r], (64 * nw) as int));
}

/// A last row of a kind above 13 cannot be run where it meets a word that is not the
/// identity on its wires.
pub proof fn lemma_unknown_kinds_cannot_run<S: Scalar>(
    st: Settings<S>,
    kind: Seq<u8>,
    wire0: Seq<u32>,
    wire1: Seq<i64>,
    param: Seq<i64>,
    batch: Seq<Vec<WordTerm<S>>>,
    nw: nat,
    i: int,
    k: int,
)
    requires
        kind.len() > 0,
        kind.last() > 13,
        !st.use_dead_qubit_pruner,
        !st.use_xy_weight_pruner,
        0 <= i < batch.len(),
        0 <= k < batch[i]@.len(),
        wire0[kind.len() - 1] < 64 * nw,
        wire1[kind.len() - 1] >= 0 ==> wire1[kind.len() - 1] as int % 0x1_0000_0000 < 64 * nw,
        row_touches(wire0[kind.len() - 1], wire1[kind.len() - 1], batch[i]@, k),
    ensures
        !batch_can_run(st, circuit(kind, wire0, wire1, param), batch, nw),
{
    let gates: Seq<Gate> = circuit(kind, wire0, wire1, param);
    let order: Seq<Gate> = gates.reverse();
    let s: Seq<Entry<S>> = sum_entries(batch[i]@, nw);
    assert(order[0] == gates[kind.len() - 1]);
    lemma_row_touches(order[0], batch[i]@, nw, k);
    lemma_filter_all(
        s,
        |e: Entry<S>| survives_pruning(st, order, 0, e.word),
    );
    assert(!run_can_act(st, order, 0, s, (64 * nw) as int));
}

/// What one gate makes of one word, written out by `evolve_single_gate_debug`: the words
/// and terms listed are those that it makes of the entries of the word, each as
/// often, whatever the order.
pub proof fn lemma_single_gate_results<S: Scalar>(
    out: Seq<WordTerm<S>>,
    g: Gate,
    x: Seq<u64>,
    z: Seq<u64>,
    terms: Seq<CoeffTerm<S>>,
    nw: nat,
    before: Seq<Entry<S>>,
    after: Seq<Entry<S>>,
)
    requires
        is_gate_image(out, g, labels(resized(x, nw), resized(z, nw)), terms_of(terms), nw),
        before.len() == terms.len(),
        forall|k: int|
            0 <= k < before.len() ==> {
                &&& (#[trigger] before[k]).word.len() == 64 * nw
                &&& before[k].term.coeff == terms[k].0
                &&& before[k].term.sin_idx == terms[k].1@
                &&& before[k].term.cos_idx == terms[k].2@
            },
        forall|k: int, q: int|
            0 <= k < before.len() && 0 <= q < 64 * nw ==> #[trigger] before[k].word[q] == digit(
                x,
                q,
            ) + 2 * digit(z, q),
        are_words(after, out, nw),
    ensures
        after.to_multiset() == evolved(g, before).to_multiset(),
        forall|i: int|
            0 <= i < out.len() ==> (#[trigger] out[i]).0@.len() == nw && out[i].1@.len() == nw,
{
    let w: Seq<u8> = labels(resized(x, nw), resized(z, nw));
    let s: Seq<Entry<S>> = entries_of(w, terms_of(terms));
    lemma_gate_image(out, g, w, terms_of(terms), nw);
    lemma_words(after, out, nw);
    assert forall|k: int| 0 <= k < before.len() implies before[k] == s[k] by {
        assert(before[k].term.coeff == terms[k].0);
        assert forall|q: int| 0 <= q < 64 * nw implies w[q] == before[k].word[q] by {
            lemma_label_is_two_digits(x, z, nw, q);
        }
        assert(before[k].word =~= w);
    }
    assert(before =~= s);
    assert(same_items(sum_entries(out, nw), evolved(g, s)));
}

/// What a gate adds to a sum of words: under each word, the terms that it makes of the
/// entries of the word it acts on, each as often, besides those that were there.
pub proof fn lemma_gate_adds_to_a_sum<S: Arith>(
    sum: Map<Seq<u8>, Seq<Term<S>>>,
    g: Gate,
    w: Seq<u8>,
    ts: Seq<Term<S>>,
    before: Seq<Entry<S>>,
    v: Seq<u8>,
    t: Term<S>,
    n: nat,
)
    requires
        before.len() == ts.len(),
        forall|k: int|
            0 <= k < before.len() ==> (#[trigger] before[k]).word == w && before[k].term == ts[k],
        n == if sum.contains_key(v) {
            sum[v].to_multiset().count(t)
        } else {
            0
        },
    ensures
        ({
            let after = with_branches(sum, branches(g, w), g.param as u32, ts);
            let m = evolved(g, before).to_multiset().count((Entry { word: v, term: t }));
            &&& after.contains_key(v) ==> after[v].to_multiset().count(t) == n + m
            &&& !after.contains_key(v) ==> n + m == 0
        }),
{
    let e: Entry<S> = Entry { word: v, term: t };
    let bs: Seq<Branch> = branches(g, w);
    let made: Seq<Entry<S>> = spread(bs, param_index(g), ts);
    assert(before =~= entries_of(w, ts));
    lemma_spread_is_evolved(g, w, ts);
    lemma_added(sum, bs, param_index(g), ts, e);
    lemma_occurrences_empty(t);
    assert(param_index(g) == g.param as u32);
    assert(occurrences(made, e) == occurrences(evolved(g, before), e));
}

proof fn lemma_added<S: Arith>(
    sum: Map<Seq<u8>, Seq<Term<S>>>,
    bs: Seq<Branch>,
    p: u32,
    ts: Seq<Term<S>>,
    e: Entry<S>,
)
    ensures
        occurrences(terms_at(with_branches(sum, bs, p, ts), e.word), e.term) == occurrences(
            terms_at(sum, e.word),
            e.term,
        ) + occurrences(spread(bs, p, ts), e),
    decreases bs.len(),
{
    if bs.len() == 0 {
        lemma_occurrences_empty(e);
    } else {
        let b: Branch = bs.last();
        let new: Seq<Term<S>> = branch_terms(b, p, ts);
        let before: Map<Seq<u8>, Seq<Term<S>>> = with_branches(sum, bs.drop_last(), p, ts);
        lemma_added(sum, bs.drop_last(), p, ts, e);
        lemma_occurrences_add(spread(bs.drop_last(), p, ts), entries_of(b.word, new), e);
        lemma_entries_occurrences(b.word, new, e);
        if e.word == b.word {
            lemma_occurrences_add(terms_at(before, b.word), new, e.term);
        }
    }
}

/// A map from keys to lists is a map from words to terms: under the word of a key stand
/// the terms of its list, and under a word of no key stands nothing.
pub proof fn lemma_sum_of_a_map<S, const NW: usize>(
    m: Contents<S, NW>,
    k: PauliKey<NW>,
    w: Seq<u8>,
    ts: Seq<Term<S>>,
)
    requires
        w.len() == 64 * NW,
        forall|q: int|
            0 <= q < 64 * NW ==> #[trigger] w[q] == digit(k.0@, q) + 2 * digit(k.1@, q),
        m.contains_key(k) ==> are_terms(ts, m[k]@),
    ensures
        m.contains_key(k) <==> sum_of(m).contains_key(w),
        m.contains_key(k) ==> sum_of(m)[w] == ts,
{
    assert(k.0@.len() == NW && k.1@.len() == NW);
    assert(resized(k.0@, NW as nat) =~= k.0@);
    assert(resized(k.1@, NW as nat) =~= k.1@);
    assert forall|q: int| 0 <= q < 64 * NW implies word(k)[q] == w[q] by {
        lemma_label_is_two_digits(k.0@, k.1@, NW as nat, q);
    }
    assert(word(k) =~= w);
    lemma_sum_at(m, k);
    if m.contains_key(k) {
        lemma_terms(ts, m[k]@);
    }
}

/// Terms added to a word come behind those that it has; the other words stay as they are.
pub proof fn lemma_extension_of_a_sum<S>(
    sum: Map<Seq<u8>, Seq<Term<S>>>,
    w: Seq<u8>,
    ts: Seq<Term<S>>,
    v: Seq<u8>,
)
    ensures
        extended(sum, w, ts).contains_key(w),
        sum.contains_key(w) ==> extended(sum, w, ts)[w] == sum[w] + ts,
        !sum.contains_key(w) ==> extended(sum, w, ts)[w] == ts,
        v != w ==> (extended(sum, w, ts).contains_key(v) <==> sum.contains_key(v)),
        v != w && sum.contains_key(v) ==> extended(sum, w, ts)[v] == sum[v],
{
    assert(Seq::<Term<S>>::empty() + ts =~= ts);
}

/// The gates that specifications stand for are their fields.
pub proof fn lemma_gates_of_specs<const NW: usize>(specs: Seq<GateSpec<NW>>, i: int)
    requires
        0 <= i < specs.len(),
    ensures
        gates_of(specs).len() == specs.len(),
        gates_of(specs)[i].kind == specs[i].kind,
        gates_of(specs)[i].wire0 == specs[i].wire0,
        gates_of(specs)[i].wire1 == specs[i].wire1,
        gates_of(specs)[i].param == specs[i].param,
{
}

/// A gate can act on words of `n` qubits where it is of one of the kinds 0 to 13 and its
/// wires are among the qubits: the first, and from kind 7 on the second.
pub proof fn lemma_gates_that_can_act(g: Gate, n: int)
    ensures
        can_act(g, n) <==> g.kind <= 13 && g.wire0 < n && (g.kind >= 7 ==> g.wire1 as int
            % 0x1_0000_0000 < n),
        wires_fit(g, n) <==> g.wire0 < n && (g.wire1 >= 0 ==> g.wire1 as int % 0x1_0000_0000 < n),
{
    lemma_low_half(g.wire1);
}

/// Columns are full where the three beside the kinds are as long as those, or longer.
pub proof fn lemma_full_columns(kind: Seq<u8>, wire0: Seq<u32>, wire1: Seq<i64>, param: Seq<i64>)
    ensures
        columns_are_full(kind, wire0, wire1, param) <==> kind.len() <= wire0.len() && kind.len()
            <= wire1.len() && kind.len() <= param.len(),
{
}

/// A circuit whose rows are within the planes but name no wire on which a word of the batch
/// is not the identity can be run, of whatever kinds they are, and changes nothing.
pub proof fn lemma_idle_rows_can_run<S: Scalar>(
    st: Settings<S>,
    kind: Seq<u8>,
    wire0: Seq<u32>,
    wire1: Seq<i64>,
    param: Seq<i64>,
    batch: Seq<Vec<WordTerm<S>>>,
    nw: nat,
)
    requires
        forall|r: int|
            0 <= r < kind.len() ==> #[trigger] row_fits(wire0[r], wire1[r], nw),
        forall|r: int, i: int, k: int|
            0 <= r < kind.len() && 0 <= i < batch.len() && 0 <= k < batch[i]@.len()
                ==> !#[trigger] row_touches(wire0[r], wire1[r], batch[i]@, k),
    ensures
        batch_can_run(st, circuit(kind, wire0, wire1, param), batch, nw),
        forall|i: int|
            0 <= i < batch.len() ==> propagated(
                st,
                circuit(kind, wire0, wire1, param).reverse(),
                0,
                #[trigger] sum_entries(batch[i]@, nw),
            ) == sum_entries(batch[i]@, nw),
{
    let gates: Seq<Gate> = circuit(kind, wire0, wire1, param);
    let order: Seq<Gate> = gates.reverse();
    assert forall|r: int| 0 <= r < gates.len() implies wires_fit(
        #[trigger] gates[r],
        (64 * nw) as int,
    ) by {
        assert(row_fits(wire0[r], wire1[r], nw));
        lemma_low_half(wire1[r]);
    }
    assert forall|i: int| 0 <= i < batch.len() implies run_can_act(
        st,
        order,
        0,
        sum_entries((#[trigger] batch[i])@, nw),
        (64 * nw) as int,
    ) && propagated(st, order, 0, sum_entries(batch[i]@, nw)) == sum_entries(batch[i]@, nw) by {
        let s: Seq<Entry<S>> = sum_entries(batch[i]@, nw);
        assert forall|j: int| 0 <= j < order.len() implies !touches(#[trigger] order[j], s) by {
            let r: int = kind.len() - 1 - j;
            assert(order[j] == gates[r]);
            assert(row_fits(wire0[r], wire1[r], nw));
            lemma_low_half(wire1[r]);
            assert forall|k: int| 0 <= k < s.len() implies !#[trigger] touches_word(
                order[j],
                s[k].word,
            ) by {
                assert(!row_touches(wire0[r], wire1[r], batch[i]@, k));
                lemma_label_is_two_digits(
                    batch[i]@[k].0@,
                    batch[i]@[k].1@,
                    nw,
                    wire0[r] as int,
                );
                if wire1[r] >= 0 {
                    lemma_label_is_two_digits(
                        batch[i]@[k].0@,
                        batch[i]@[k].1@,
                        nw,
                        wire1[r] as int % 0x1_0000_0000,
                    );
                }
                lemma_digits(batch[i]@[k].0@, wire0[r] as int);
                lemma_digits(batch[i]@[k].1@, wire0[r] as int);
                lemma_digits(batch[i]@[k].0@, wire1[r] as int % 0x1_0000_0000);
                lemma_digits(batch[i]@[k].1@, wire1[r] as int % 0x1_0000_0000);
            }
        }
        lemma_idle_run(st, order, 0, s, (64 * nw) as int);
    }
}

proof fn lemma_digits(words: Seq<u64>, q: int)
    ensures
        digit(words, q) == 0 || digit(words, q) == 1,
{
}

proof fn lemma_idle_run<S: Arith>(
    st: Settings<S>,
    gates: Seq<Gate>,
    i: int,
    s: Seq<Entry<S>>,
    n: int,
)
    requires
        0 <= i <= gates.len(),
        forall|j: int| 0 <= j < gates.len() ==> !touches(#[trigger] gates[j], s),
    ensures
        run_can_act(st, gates, i, s, n),
        propagated(st, gates, i, s) == s,
    decreases gates.len() - i,
{
    if i < gates.len() {
        assert(!touches(gates[i], s));
        lemma_idle_run(st, gates, i + 1, s, n);
    }
}

/// A sum of words holds a list of entries where each entry is among the terms of its word
/// as often as in the list.
pub proof fn lemma_sum_holds_entries<S>(
    sum: Map<Seq<u8>, Seq<Term<S>>>,
    s: Seq<Entry<S>>,
    e: Entry<S>,
)
    requires
        holds(sum, s),
    ensures
        sum.contains_key(e.word) ==> sum[e.word].to_multiset().count(e.term)
            == s.to_multiset().count(e),
        !sum.contains_key(e.word) ==> s.to_multiset().count(e) == 0,
{
    lemma_occurrences_empty(e.term);
    assert(occurrences(s, e) == occurrences(terms_at(sum, e.word), e.term));
}

} // verus!
