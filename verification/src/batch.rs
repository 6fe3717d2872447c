//! Whole circuits: the columns of a gate list, and batches of Pauli sums.

use vstd::prelude::*;

use crate::bits::{
    either, is_word, labels, lemma_supported_word_counts, lemma_zero_plane, mask_or, plane_bits,
    resized, set_wire_bit, word, word_bit, word_count, words_needed, words_to_array, PauliKey,
};
use crate::evolve::{evolve_one_gate, with_branches, GateSpec};
use crate::grouping::{
    flat, holds, lemma_empty_holds, lemma_expectation_same, lemma_extended_holds, lemma_flat_holds,
    lemma_spread_is_evolved, lemma_with_branches_holds, lists_words, no_empty_lists, spread,
    Grouped,
};
use crate::model::{
    branches, can_act, entries_of, evolved, expectation, gate_mask, named_from, names_wire,
    param_index, propagated, run_can_act, stepped, term_of, terms_of, touches, wires_fit, CoeffTerm,
    Entry, Gate, Settings, Term,
};
use crate::pauli_map::{insert_or_push, into_entries, new_map, sum_of, Contents, PauliMap};
use crate::propagate::{gates_of, lemma_listing, try_heisenberg_one, words_of};
use crate::pruning::{
    all_proper, all_words, evolved_through, is_proper, lemma_pruning_is_exact,
    lemma_run_is_composition, truncates_nothing,
};
use crate::reorder::{lemma_flat_map_empty, lemma_same_filter, same_items};
use crate::rules;
use crate::scalar::Scalar;
use crate::truncation::{factors_do_not_lift, has_t, lemma_truncation_is_a_filter, term_kept};

verus! {

/// The largest number of qubits that the supported planes cover.
pub const MAX_QUBITS: u32 = 8192;

/// One term of one word: the words of the x-plane and of the z-plane, the
/// coefficient, and the sine and cosine indices.
pub type WordTerm<S> = (Vec<u64>, Vec<u64>, S, Vec<u32>, Vec<u32>);

/// Why a circuit cannot be run.
#[derive(Clone, Copy, PartialEq, Eq, Structural, Debug)]
pub enum PropagateError {
    /// The qubits need more plane words than are supported.
    TooManyQubits { num_qubits: u32, words: usize },
    /// A gate has no wires or parameter, names a wire beyond the planes, or cannot act
    /// on a word that it meets.
    CannotRun,
}

/// The circuit with the given columns.
pub open spec fn circuit(
    gate_kind: Seq<u8>,
    gate_wire0: Seq<u32>,
    gate_wire1: Seq<i64>,
    gate_param: Seq<i64>,
) -> Seq<Gate> {
    Seq::new(
        gate_kind.len(),
        |i: int|
            Gate {
                kind: gate_kind[i],
                wire0: gate_wire0[i],
                wire1: gate_wire1[i],
                param: gate_param[i],
            },
    )
}

/// The entry of a term, on planes of `nw` words.
pub open spec fn entry_of<S>(t: WordTerm<S>, nw: nat) -> Entry<S> {
    Entry {
        word: labels(resized(t.0@, nw), resized(t.1@, nw)),
        term: Term { coeff: t.2, sin_idx: t.3@, cos_idx: t.4@ },
    }
}

/// The Pauli sum of a list of terms, on planes of `nw` words.
pub open spec fn sum_entries<S>(list: Seq<WordTerm<S>>, nw: nat) -> Seq<Entry<S>> {
    Seq::new(list.len(), |i: int| entry_of(list[i], nw))
}

/// Whether a circuit can be run on each sum of a batch: the wires fit into planes of
/// `nw` words, and each gate that acts is one that can.
pub open spec fn batch_can_run<S: Scalar>(
    st: Settings<S>,
    gates: Seq<Gate>,
    batch: Seq<Vec<WordTerm<S>>>,
    nw: nat,
) -> bool {
    &&& forall|i: int| 0 <= i < gates.len() ==> wires_fit(#[trigger] gates[i], (64 * nw) as int)
    &&& forall|i: int|
        0 <= i < batch.len() ==> run_can_act(
            st,
            gates.reverse(),
            0,
            sum_entries((#[trigger] batch[i])@, nw),
            (64 * nw) as int,
        )
}

/// Whether `results` holds, for each sum of a batch, the terms of its expectation
/// value after the circuit, in whatever order. The gates act last to first.
pub open spec fn are_expectations<S: Scalar>(
    results: Seq<Vec<CoeffTerm<S>>>,
    st: Settings<S>,
    gates: Seq<Gate>,
    batch: Seq<Vec<WordTerm<S>>>,
    nw: nat,
) -> bool {
    &&& results.len() == batch.len()
    &&& forall|i: int|
        0 <= i < batch.len() ==> same_items(
            terms_of((#[trigger] results[i])@),
            expectation(propagated(st, gates.reverse(), 0, sum_entries(batch[i]@, nw))),
        )
}

/// The words of a list of terms are Pauli words.
pub proof fn lemma_sum_has_words<S>(list: Seq<WordTerm<S>>, nw: nat)
    ensures
        all_words(sum_entries(list, nw), 64 * nw),
{
}

/// Pruning is exact: results of one circuit on one batch hold the same terms,
/// whichever pruners were in use.
pub proof fn lemma_batch_pruning_is_exact<S: Scalar>(
    results: Seq<Vec<CoeffTerm<S>>>,
    others: Seq<Vec<CoeffTerm<S>>>,
    st: Settings<S>,
    other: Settings<S>,
    gates: Seq<Gate>,
    batch: Seq<Vec<WordTerm<S>>>,
    nw: nat,
)
    requires
        all_proper(gates, 64 * nw),
        st.k1 == other.k1,
        st.k2 == other.k2,
        st.coeff_threshold == other.coeff_threshold,
        are_expectations(results, st, gates, batch, nw),
        are_expectations(others, other, gates, batch, nw),
    ensures
        results.len() == others.len(),
        forall|i: int|
            0 <= i < results.len() ==> same_items(
                terms_of((#[trigger] results[i])@),
                terms_of(others[i]@),
            ),
{
    let order: Seq<Gate> = gates.reverse();
    assert(all_proper(order, 64 * nw)) by {
        assert forall|i: int| 0 <= i < order.len() implies is_proper(
            #[trigger] order[i],
            (64 * nw) as int,
        ) by {
            assert(order[i] == gates[gates.len() - 1 - i]);
        }
    }
    assert forall|i: int| 0 <= i < results.len() implies same_items(
        terms_of((#[trigger] results[i])@),
        terms_of(others[i]@),
    ) by {
        let s: Seq<Entry<S>> = sum_entries(batch[i]@, nw);
        lemma_sum_has_words(batch[i]@, nw);
        lemma_pruning_is_exact(st, other, order, s, 64 * nw);
        assert(same_items(terms_of(others[i]@), expectation(propagated(other, order, 0, s))));
    }
}

/// The truncations of terms drop exactly the terms that are out of bounds: results of
/// one circuit on one batch are the results without truncations, filtered.
pub proof fn lemma_batch_truncation_is_a_filter<S: Scalar>(
    results: Seq<Vec<CoeffTerm<S>>>,
    others: Seq<Vec<CoeffTerm<S>>>,
    st: Settings<S>,
    other: Settings<S>,
    gates: Seq<Gate>,
    batch: Seq<Vec<WordTerm<S>>>,
    nw: nat,
    i: int,
)
    requires
        all_proper(gates, 64 * nw),
        st.k1 < 0,
        st.coeff_threshold.spec_is_nonnegative() ==> factors_do_not_lift(
            has_t(gates),
            st.coeff_threshold,
        ),
        truncates_nothing(other),
        are_expectations(results, st, gates, batch, nw),
        are_expectations(others, other, gates, batch, nw),
        0 <= i < batch.len(),
        exists|j: int|
            0 <= j < gates.len() && touches(#[trigger] gates[j], sum_entries(batch[i]@, nw)),
    ensures
        same_items(
            terms_of(results[i]@),
            terms_of(others[i]@).filter(|t: Term<S>| term_kept(st, t)),
        ),
{
    let order: Seq<Gate> = gates.reverse();
    let s: Seq<Entry<S>> = sum_entries(batch[i]@, nw);
    assert forall|k: int| 0 <= k < order.len() implies is_proper(
        #[trigger] order[k],
        (64 * nw) as int,
    ) by {
        assert(order[k] == gates[gates.len() - 1 - k]);
    }
    let j: int = choose|j: int| 0 <= j < gates.len() && touches(#[trigger] gates[j], s);
    assert(order[gates.len() - 1 - j] == gates[j]);
    assert(has_t(order) ==> has_t(gates)) by {
        if has_t(order) {
            let k: int = choose|k: int| 0 <= k < order.len() && (#[trigger] order[k]).kind == rules::T;
            assert(gates[gates.len() - 1 - k].kind == rules::T);
        }
    }
    assert(has_t(gates) ==> has_t(order)) by {
        if has_t(gates) {
            let k: int = choose|k: int| 0 <= k < gates.len() && (#[trigger] gates[k]).kind == rules::T;
            assert(order[gates.len() - 1 - k].kind == rules::T);
        }
    }
    lemma_sum_has_words(batch[i]@, nw);
    lemma_truncation_is_a_filter(st, other, order, s, 64 * nw);
    assert(same_items(terms_of(results[i]@), expectation(propagated(st, order, 0, s))));
    assert(same_items(terms_of(others[i]@), expectation(propagated(other, order, 0, s))));
    lemma_same_filter(
        terms_of(others[i]@),
        expectation(propagated(other, order, 0, s)),
        |t: Term<S>| term_kept(st, t),
    );
}

/// A circuit of proper gates can be run on any batch.
pub proof fn lemma_proper_circuit_can_run<S: Scalar>(
    st: Settings<S>,
    gates: Seq<Gate>,
    batch: Seq<Vec<WordTerm<S>>>,
    nw: nat,
)
    requires
        all_proper(gates, 64 * nw),
    ensures
        batch_can_run(st, gates, batch, nw),
{
    let order: Seq<Gate> = gates.reverse();
    assert forall|i: int| 0 <= i < gates.len() implies wires_fit(
        #[trigger] gates[i],
        (64 * nw) as int,
    ) by {
        assert(is_proper(gates[i], (64 * nw) as int));
    }
    assert forall|i: int| 0 <= i < order.len() implies is_proper(
        #[trigger] order[i],
        (64 * nw) as int,
    ) by {
        assert(order[i] == gates[gates.len() - 1 - i]);
    }
    assert forall|i: int| 0 <= i < batch.len() implies run_can_act(
        st,
        order,
        0,
        sum_entries((#[trigger] batch[i])@, nw),
        (64 * nw) as int,
    ) by {
        lemma_proper_run_can_act(st, order, 0, sum_entries(batch[i]@, nw), (64 * nw) as int);
    }
}

proof fn lemma_proper_run_can_act<S: Scalar>(
    st: Settings<S>,
    gates: Seq<Gate>,
    i: int,
    s: Seq<Entry<S>>,
    n: int,
)
    requires
        0 <= i <= gates.len(),
        forall|j: int| 0 <= j < gates.len() ==> is_proper(#[trigger] gates[j], n),
    ensures
        run_can_act(st, gates, i, s, n),
    decreases gates.len() - i,
{
    if i < gates.len() {
        assert(is_proper(gates[i], n));
        lemma_proper_run_can_act(st, gates, i + 1, stepped(st, gates, i, s), n);
    }
}

/// A gate with its wire mask.
fn gate_spec<const NW: usize>(kind: u8, wire0: u32, wire1: i64, param: i64) -> (r: GateSpec<NW>)
    requires
        wires_fit((Gate { kind, wire0, wire1, param }), 64 * NW),
    ensures
        r.gate() == (Gate { kind, wire0, wire1, param }),
        r.is_well_formed(),
{
    let ghost g: Gate = Gate { kind, wire0, wire1, param };
    let mut wire_mask: [u64; NW] = [0u64; NW];
    proof {
        lemma_zero_plane(wire_mask@);
    }
    set_wire_bit(&mut wire_mask, wire0);
    if wire1 >= 0 {
        set_wire_bit(&mut wire_mask, #[verifier::truncate] (wire1 as u32));
    }
    assert(plane_bits(wire_mask@) =~= gate_mask(g, (64 * NW) as nat));
    GateSpec { kind, wire0, wire1, param, wire_mask }
}

proof fn lemma_named_step(gates: Seq<Gate>, i: int, n: nat)
    requires
        0 <= i < gates.len(),
    ensures
        named_from(gates, i, n) == either(named_from(gates, i + 1, n), gate_mask(gates[i], n)),
{
    let left: Seq<bool> = named_from(gates, i, n);
    let right: Seq<bool> = either(named_from(gates, i + 1, n), gate_mask(gates[i], n));
    assert forall|q: int| 0 <= q < n implies left[q] == right[q] by {
        if left[q] {
            let j: int = choose|j: int| i <= j < gates.len() && names_wire(#[trigger] gates[j], q);
            assert(j == i || i + 1 <= j);
        }
        if right[q] {
            if names_wire(gates[i], q) {
                assert(left[q]);
            } else {
                let j: int = choose|j: int|
                    i + 1 <= j < gates.len() && names_wire(#[trigger] gates[j], q);
                assert(left[q]);
            }
        }
    }
    assert(left =~= right);
}

/// Whether wires are within planes of `NW` words.
fn wires_are_there<const NW: usize>(wire0: u32, wire1: i64) -> (r: bool)
    ensures
        forall|g: Gate|
            g.wire0 == wire0 && g.wire1 == wire1 ==> r == #[trigger] wires_fit(g, 64 * NW),
{
    let second: u32 = #[verifier::truncate] (wire1 as u32);
    word_bit(wire0).0 < NW && (wire1 < 0 || word_bit(second).0 < NW)
}

/// The gates of a circuit with their masks, last gate first; nothing where a wire is
/// beyond the planes.
fn reversed_specs<const NW: usize>(
    gate_kind: &Vec<u8>,
    gate_wire0: &Vec<u32>,
    gate_wire1: &Vec<i64>,
    gate_param: &Vec<i64>,
) -> (r: Option<Vec<GateSpec<NW>>>)
    requires
        gate_wire0@.len() >= gate_kind@.len(),
        gate_wire1@.len() >= gate_kind@.len(),
        gate_param@.len() >= gate_kind@.len(),
    ensures
        r is Some <==> forall|i: int|
            0 <= i < gate_kind@.len() ==> wires_fit(
                #[trigger] circuit(gate_kind@, gate_wire0@, gate_wire1@, gate_param@)[i],
                64 * NW,
            ),
        r matches Some(specs) ==> {
            &&& gates_of(specs@) == circuit(
                gate_kind@,
                gate_wire0@,
                gate_wire1@,
                gate_param@,
            ).reverse()
            &&& forall|i: int| 0 <= i < specs@.len() ==> (#[trigger] specs@[i]).is_well_formed()
        },
{
    let ghost gs: Seq<Gate> = circuit(gate_kind@, gate_wire0@, gate_wire1@, gate_param@);
    let n: usize = gate_kind.len();
    let mut gates: Vec<GateSpec<NW>> = Vec::with_capacity(n);
    let mut i: usize = 0;
    while i < n
        invariant
            i <= n == gate_kind@.len(),
            gate_wire0@.len() >= n,
            gate_wire1@.len() >= n,
            gate_param@.len() >= n,
            gs == circuit(gate_kind@, gate_wire0@, gate_wire1@, gate_param@),
            forall|j: int| 0 <= j < i ==> wires_fit(#[trigger] gs[j], 64 * NW),
            gates@.len() == i,
            forall|j: int|
                0 <= j < i ==> (#[trigger] gates@[j]).gate() == gs[j] && gates@[j].is_well_formed(),
        decreases n - i,
    {
        let fit: bool = wires_are_there::<NW>(gate_wire0[i], gate_wire1[i]);
        assert(fit == wires_fit(gs[i as int], 64 * NW));
        if !fit {
            return None;
        }
        gates.push(gate_spec::<NW>(gate_kind[i], gate_wire0[i], gate_wire1[i], gate_param[i]));
        i += 1;
    }
    let mut reversed: Vec<GateSpec<NW>> = Vec::with_capacity(n);
    while gates.len() > 0
        invariant
            gates@.len() + reversed@.len() == n == gs.len(),
            forall|j: int|
                0 <= j < gates@.len() ==> (#[trigger] gates@[j]).gate() == gs[j]
                    && gates@[j].is_well_formed(),
            forall|j: int|
                0 <= j < reversed@.len() ==> (#[trigger] reversed@[j]).gate() == gs[n - 1 - j]
                    && reversed@[j].is_well_formed(),
        decreases gates@.len(),
    {
        if let Some(g) = gates.pop() {
            reversed.push(g);
        }
    }
    assert(gates_of(reversed@) =~= gs.reverse());
    Some(reversed)
}

/// Propagates each sum of a batch through a circuit, on planes of `NW` words;
/// nothing where the circuit cannot be run.
#[verifier::rlimit(50)]
pub fn try_propagate_batch_impl<S: Scalar, const NW: usize>(
    gate_kind: Vec<u8>,
    gate_wire0: Vec<u32>,
    gate_wire1: Vec<i64>,
    gate_param: Vec<i64>,
    k1: i64,
    k2: i64,
    coeff_threshold: S,
    use_dead_qubit_pruner: bool,
    use_xy_weight_pruner: bool,
    paulidicts: Vec<Vec<WordTerm<S>>>,
) -> (r: Option<Vec<Vec<CoeffTerm<S>>>>)
    requires
        64 * NW <= u32::MAX,
        gate_wire0@.len() >= gate_kind@.len(),
        gate_wire1@.len() >= gate_kind@.len(),
        gate_param@.len() >= gate_kind@.len(),
    ensures
        r is Some <==> batch_can_run(
            (Settings { k1, k2, coeff_threshold, use_dead_qubit_pruner, use_xy_weight_pruner }),
            circuit(gate_kind@, gate_wire0@, gate_wire1@, gate_param@),
            paulidicts@,
            NW as nat,
        ),
        r matches Some(results) ==> are_expectations(
            results@,
            (Settings { k1, k2, coeff_threshold, use_dead_qubit_pruner, use_xy_weight_pruner }),
            circuit(gate_kind@, gate_wire0@, gate_wire1@, gate_param@),
            paulidicts@,
            NW as nat,
        ),
{
    let ghost st: Settings<S> = Settings {
        k1,
        k2,
        coeff_threshold,
        use_dead_qubit_pruner,
        use_xy_weight_pruner,
    };
    let ghost gs: Seq<Gate> = circuit(
        gate_kind@,
        gate_wire0@,
        gate_wire1@,
        gate_param@,
    ).reverse();
    // In the Heisenberg picture the last gate acts first.
    let reversed: Vec<GateSpec<NW>> = match reversed_specs::<NW>(
        &gate_kind,
        &gate_wire0,
        &gate_wire1,
        &gate_param,
    ) {
        Some(specs) => specs,
        None => return None,
    };
    let n: usize = reversed.len();
    let mut gate_masks: Vec<[u64; NW]> = Vec::with_capacity(n);
    let mut active_qubits_from: Vec<[u64; NW]> = Vec::with_capacity(n);
    assert(gs == gates_of(reversed@));
    let mut i: usize = 0;
    while i < n
        invariant
            i <= n == reversed@.len() == gs.len(),
            gs == gates_of(reversed@),
            forall|j: int| 0 <= j < n ==> (#[trigger] reversed@[j]).is_well_formed(),
            gate_masks@.len() == i,
            active_qubits_from@.len() == i,
            forall|j: int|
                0 <= j < i ==> plane_bits(#[trigger] gate_masks@[j]@) == gate_mask(
                    gs[j],
                    (64 * NW) as nat,
                ),
        decreases n - i,
    {
        assert(reversed@[i as int].is_well_formed());
        gate_masks.push(reversed[i].wire_mask);
        active_qubits_from.push([0u64; NW]);
        i += 1;
    }
    // Suffix unions: `active_qubits_from[i]` is what the gates from `i` on name.
    let mut later: [u64; NW] = [0u64; NW];
    proof {
        lemma_zero_plane(later@);
        assert(plane_bits(later@) =~= named_from(gs, n as int, (64 * NW) as nat));
    }
    while i > 0
        invariant
            i <= n == gs.len() == gate_masks@.len() == active_qubits_from@.len(),
            forall|j: int|
                0 <= j < n ==> plane_bits(#[trigger] gate_masks@[j]@) == gate_mask(
                    gs[j],
                    (64 * NW) as nat,
                ),
            plane_bits(later@) == named_from(gs, i as int, (64 * NW) as nat),
            forall|j: int|
                i <= j < n ==> plane_bits(#[trigger] active_qubits_from@[j]@) == named_from(
                    gs,
                    j,
                    (64 * NW) as nat,
                ),
        decreases i,
    {
        i -= 1;
        proof {
            lemma_named_step(gs, i as int, (64 * NW) as nat);
            assert(plane_bits(gate_masks@[i as int]@) == gate_mask(gs[i as int], (64 * NW) as nat));
        }
        later = mask_or(&later, &gate_masks[i]);
        active_qubits_from[i] = later;
    }
    let ghost batch: Seq<Vec<WordTerm<S>>> = paulidicts@;
    let mut results: Vec<Vec<CoeffTerm<S>>> = Vec::with_capacity(paulidicts.len());
    for list in it: paulidicts
        invariant
            64 * NW <= u32::MAX,
            it.seq() == batch,
            n == reversed@.len() == gate_masks@.len() == active_qubits_from@.len() == gs.len(),
            gs == gates_of(reversed@),
            st == (Settings {
                k1,
                k2,
                coeff_threshold,
                use_dead_qubit_pruner,
                use_xy_weight_pruner,
            }),
            forall|j: int| 0 <= j < n ==> (#[trigger] reversed@[j]).is_well_formed(),
            forall|j: int|
                0 <= j < n ==> plane_bits(#[trigger] gate_masks@[j]@) == gate_mask(
                    gs[j],
                    (64 * NW) as nat,
                ),
            forall|j: int|
                0 <= j < n ==> plane_bits(#[trigger] active_qubits_from@[j]@) == named_from(
                    gs,
                    j,
                    (64 * NW) as nat,
                ),
            batch == paulidicts@,
            gs == circuit(gate_kind@, gate_wire0@, gate_wire1@, gate_param@).reverse(),
            forall|i: int|
                0 <= i < it.index() ==> run_can_act(
                    st,
                    gs,
                    0,
                    sum_entries((#[trigger] batch[i])@, NW as nat),
                    64 * NW,
                ),
            results@.len() == it.index(),
            forall|i: int|
                0 <= i < it.index() ==> same_items(
                    terms_of((#[trigger] results@[i])@),
                    expectation(propagated(st, gs, 0, sum_entries(batch[i]@, NW as nat))),
                ),
    {
        let ghost entries: Seq<Entry<S>> = sum_entries(list@, NW as nat);
        proof {
            assert(batch[it.index()] == list);
        }
        let map: PauliMap<S, NW> = load_sum::<S, NW>(list);
        assert(holds(sum_of(map@), entries));
        let found: Option<Vec<CoeffTerm<S>>> = try_heisenberg_one(
            &reversed,
            &gate_masks,
            &active_qubits_from,
            map,
            k1,
            k2,
            coeff_threshold,
            use_dead_qubit_pruner,
            use_xy_weight_pruner,
        );
        match found {
            Some(terms) => results.push(terms),
            None => {
                assert(!run_can_act(
                    st,
                    gs,
                    0,
                    sum_entries(batch[it.index()]@, NW as nat),
                    64 * NW,
                ));
                return None;
            },
        }
    }
    Some(results)
}

/// Propagates each sum of a batch through a circuit, on planes of `NW` words.
pub fn propagate_batch_impl<S: Scalar, const NW: usize>(
    gate_kind: Vec<u8>,
    gate_wire0: Vec<u32>,
    gate_wire1: Vec<i64>,
    gate_param: Vec<i64>,
    k1: i64,
    k2: i64,
    coeff_threshold: S,
    use_dead_qubit_pruner: bool,
    use_xy_weight_pruner: bool,
    paulidicts: Vec<Vec<WordTerm<S>>>,
) -> (r: Vec<Vec<CoeffTerm<S>>>)
    requires
        64 * NW <= u32::MAX,
        gate_wire0@.len() >= gate_kind@.len(),
        gate_wire1@.len() >= gate_kind@.len(),
        gate_param@.len() >= gate_kind@.len(),
        batch_can_run(
            (Settings { k1, k2, coeff_threshold, use_dead_qubit_pruner, use_xy_weight_pruner }),
            circuit(gate_kind@, gate_wire0@, gate_wire1@, gate_param@),
            paulidicts@,
            NW as nat,
        ),
    ensures
        are_expectations(
            r@,
            (Settings { k1, k2, coeff_threshold, use_dead_qubit_pruner, use_xy_weight_pruner }),
            circuit(gate_kind@, gate_wire0@, gate_wire1@, gate_param@),
            paulidicts@,
            NW as nat,
        ),
{
    match try_propagate_batch_impl::<S, NW>(
        gate_kind,
        gate_wire0,
        gate_wire1,
        gate_param,
        k1,
        k2,
        coeff_threshold,
        use_dead_qubit_pruner,
        use_xy_weight_pruner,
        paulidicts,
    ) {
        Some(results) => results,
        None => {
            assert(false);
            Vec::new()
        },
    }
}

/// The map of a list of terms; terms of one word are collected under it.
fn load_sum<S: Scalar, const NW: usize>(list: Vec<WordTerm<S>>) -> (r: PauliMap<S, NW>)
    ensures
        holds(sum_of(r@), sum_entries(list@, NW as nat)),
        no_empty_lists(sum_of(r@)),
{
    let ghost all: Seq<WordTerm<S>> = list@;
    let mut map: PauliMap<S, NW> = new_map();
    proof {
        lemma_empty_holds::<S>();
        assert(sum_entries(all.take(0), NW as nat) =~= Seq::empty());
    }
    for item in it: list
        invariant
            it.seq() == all,
            holds(sum_of(map@), sum_entries(all.take(it.index()), NW as nat)),
            no_empty_lists(sum_of(map@)),
    {
        let ghost i: int = it.index();
        let ghost before: Seq<Entry<S>> = sum_entries(all.take(i), NW as nat);
        let ghost e: Entry<S> = entry_of(item, NW as nat);
        let (xw, zw, coeff, sin_idx, cos_idx): WordTerm<S> = item;
        let key: PauliKey<NW> = (words_to_array::<NW>(&xw), words_to_array::<NW>(&zw));
        proof {
            lemma_extended_holds(sum_of(map@), before, word(key), seq![e.term]);
            assert(before + entries_of(word(key), seq![e.term]) =~= sum_entries(
                all.take(i + 1),
                NW as nat,
            ));
        }
        insert_or_push(&mut map, key, (coeff, sin_idx, cos_idx));
    }
    assert(all.take(all.len() as int) =~= all);
    map
}

/// Whether the columns of a circuit have a row for each gate.
pub open spec fn columns_are_full(
    gate_kind: Seq<u8>,
    gate_wire0: Seq<u32>,
    gate_wire1: Seq<i64>,
    gate_param: Seq<i64>,
) -> bool {
    &&& gate_wire0.len() >= gate_kind.len()
    &&& gate_wire1.len() >= gate_kind.len()
    &&& gate_param.len() >= gate_kind.len()
}

/// `propagate_batch` for any circuit: one that cannot be run is refused.
#[verifier::rlimit(50)]
pub fn try_propagate_batch<S: Scalar>(
    num_qubits: u32,
    gate_kind: Vec<u8>,
    gate_wire0: Vec<u32>,
    gate_wire1: Vec<i64>,
    gate_param: Vec<i64>,
    k1: i64,
    k2: i64,
    coeff_threshold: S,
    use_dead_qubit_pruner: bool,
    use_xy_weight_pruner: bool,
    paulidicts: Vec<Vec<WordTerm<S>>>,
) -> (r: Result<Vec<Vec<CoeffTerm<S>>>, PropagateError>)
    ensures
        r matches Err(PropagateError::TooManyQubits { num_qubits: n, words }) ==> n == num_qubits
            && words == word_count(num_qubits),
        r matches Err(PropagateError::TooManyQubits { num_qubits: n, words }) <==> num_qubits
            > MAX_QUBITS,
        r is Ok <==> num_qubits <= MAX_QUBITS && columns_are_full(
            gate_kind@,
            gate_wire0@,
            gate_wire1@,
            gate_param@,
        ) && batch_can_run(
            (Settings { k1, k2, coeff_threshold, use_dead_qubit_pruner, use_xy_weight_pruner }),
            circuit(gate_kind@, gate_wire0@, gate_wire1@, gate_param@),
            paulidicts@,
            word_count(num_qubits),
        ),
        r matches Ok(results) ==> are_expectations(
            results@,
            (Settings { k1, k2, coeff_threshold, use_dead_qubit_pruner, use_xy_weight_pruner }),
            circuit(gate_kind@, gate_wire0@, gate_wire1@, gate_param@),
            paulidicts@,
            word_count(num_qubits),
        ),
{
    let nw: usize = words_needed(num_qubits);
    proof {
        lemma_supported_word_counts(num_qubits, nw as nat);
    }
    if nw > 128 {
        return Err(PropagateError::TooManyQubits { num_qubits, words: nw });
    }
    let n: usize = gate_kind.len();
    if gate_wire0.len() < n || gate_wire1.len() < n || gate_param.len() < n {
        return Err(PropagateError::CannotRun);
    }
    let found: Option<Vec<Vec<CoeffTerm<S>>>> = match nw {
        1 => try_propagate_batch_impl::<S, 1>(
            gate_kind,
            gate_wire0,
            gate_wire1,
            gate_param,
            k1,
            k2,
            coeff_threshold,
            use_dead_qubit_pruner,
            use_xy_weight_pruner,
            paulidicts,
        ),
        2 => try_propagate_batch_impl::<S, 2>(
            gate_kind,
            gate_wire0,
            gate_wire1,
            gate_param,
            k1,
            k2,
            coeff_threshold,
            use_dead_qubit_pruner,
            use_xy_weight_pruner,
            paulidicts,
        ),
        4 => try_propagate_batch_impl::<S, 4>(
            gate_kind,
            gate_wire0,
            gate_wire1,
            gate_param,
            k1,
            k2,
            coeff_threshold,
            use_dead_qubit_pruner,
            use_xy_weight_pruner,
            paulidicts,
        ),
        8 => try_propagate_batch_impl::<S, 8>(
            gate_kind,
            gate_wire0,
            gate_wire1,
            gate_param,
            k1,
            k2,
            coeff_threshold,
            use_dead_qubit_pruner,
            use_xy_weight_pruner,
            paulidicts,
        ),
        16 => try_propagate_batch_impl::<S, 16>(
            gate_kind,
            gate_wire0,
            gate_wire1,
            gate_param,
            k1,
            k2,
            coeff_threshold,
            use_dead_qubit_pruner,
            use_xy_weight_pruner,
            paulidicts,
        ),
        32 => try_propagate_batch_impl::<S, 32>(
            gate_kind,
            gate_wire0,
            gate_wire1,
            gate_param,
            k1,
            k2,
            coeff_threshold,
            use_dead_qubit_pruner,
            use_xy_weight_pruner,
            paulidicts,
        ),
        64 => try_propagate_batch_impl::<S, 64>(
            gate_kind,
            gate_wire0,
            gate_wire1,
            gate_param,
            k1,
            k2,
            coeff_threshold,
            use_dead_qubit_pruner,
            use_xy_weight_pruner,
            paulidicts,
        ),
        _ => try_propagate_batch_impl::<S, 128>(
            gate_kind,
            gate_wire0,
            gate_wire1,
            gate_param,
            k1,
            k2,
            coeff_threshold,
            use_dead_qubit_pruner,
            use_xy_weight_pruner,
            paulidicts,
        ),
    };
    match found {
        Some(results) => Ok(results),
        None => Err(PropagateError::CannotRun),
    }
}

/// Propagates each sum of a batch through a circuit of `num_qubits` qubits, and
/// takes the expectation values on the all-zero state.
pub fn propagate_batch<S: Scalar>(
    num_qubits: u32,
    gate_kind: Vec<u8>,
    gate_wire0: Vec<u32>,
    gate_wire1: Vec<i64>,
    gate_param: Vec<i64>,
    k1: i64,
    k2: i64,
    coeff_threshold: S,
    use_dead_qubit_pruner: bool,
    use_xy_weight_pruner: bool,
    paulidicts: Vec<Vec<WordTerm<S>>>,
) -> (r: Result<Vec<Vec<CoeffTerm<S>>>, PropagateError>)
    requires
        num_qubits <= MAX_QUBITS ==> {
            &&& columns_are_full(gate_kind@, gate_wire0@, gate_wire1@, gate_param@)
            &&& batch_can_run(
                (Settings { k1, k2, coeff_threshold, use_dead_qubit_pruner, use_xy_weight_pruner }),
                circuit(gate_kind@, gate_wire0@, gate_wire1@, gate_param@),
                paulidicts@,
                word_count(num_qubits),
            )
        },
    ensures
        num_qubits > MAX_QUBITS ==> (r matches Err(PropagateError::TooManyQubits {
            num_qubits: n,
            words,
        }) && n == num_qubits && words == word_count(num_qubits)),
        num_qubits <= MAX_QUBITS ==> (r matches Ok(results) && are_expectations(
            results@,
            (Settings { k1, k2, coeff_threshold, use_dead_qubit_pruner, use_xy_weight_pruner }),
            circuit(gate_kind@, gate_wire0@, gate_wire1@, gate_param@),
            paulidicts@,
            word_count(num_qubits),
        )),
{
    try_propagate_batch(
        num_qubits,
        gate_kind,
        gate_wire0,
        gate_wire1,
        gate_param,
        k1,
        k2,
        coeff_threshold,
        use_dead_qubit_pruner,
        use_xy_weight_pruner,
        paulidicts,
    )
}

// ---------------------------------------------------------------------
// One gate on one word
// ---------------------------------------------------------------------

/// The words of a plane.
fn plane_words<const NW: usize>(plane: &[u64; NW]) -> (r: Vec<u64>)
    ensures
        r@ == plane@,
{
    let mut out: Vec<u64> = Vec::with_capacity(NW);
    let mut i: usize = 0;
    while i < NW
        invariant
            i <= NW,
            out@ == plane@.take(i as int),
        decreases NW - i,
    {
        out.push(plane[i]);
        i += 1;
        assert(out@ =~= plane@.take(i as int));
    }
    assert(plane@.take(NW as int) =~= plane@);
    out
}

/// The sum that one gate makes of one word and its terms.
pub open spec fn gate_image<S: Scalar>(g: Gate, w: Seq<u8>, ts: Seq<Term<S>>) -> Grouped<S> {
    with_branches(Map::empty(), branches(g, w), param_index(g), ts)
}

/// Whether `out` is what a gate makes of a word and its terms, written out word by
/// word in whatever order of the words, on planes of `nw` words.
pub open spec fn is_gate_image<S: Scalar>(
    out: Seq<WordTerm<S>>,
    g: Gate,
    w: Seq<u8>,
    ts: Seq<Term<S>>,
    nw: nat,
) -> bool {
    &&& forall|i: int|
        0 <= i < out.len() ==> (#[trigger] out[i]).0@.len() == nw && out[i].1@.len() == nw
    &&& exists|ws: Seq<Seq<u8>>| #[trigger]
        lists_words(ws, gate_image(g, w, ts)) && sum_entries(out, nw) == flat(
            ws,
            gate_image(g, w, ts),
        )
}

/// Writing out what a gate makes of a word gives the images of its entries.
pub proof fn lemma_gate_image<S: Scalar>(
    out: Seq<WordTerm<S>>,
    g: Gate,
    w: Seq<u8>,
    ts: Seq<Term<S>>,
    nw: nat,
)
    requires
        is_gate_image(out, g, w, ts, nw),
    ensures
        same_items(sum_entries(out, nw), evolved(g, entries_of(w, ts))),
{
    let sum: Grouped<S> = gate_image(g, w, ts);
    let ws: Seq<Seq<u8>> = choose|ws: Seq<Seq<u8>>| #[trigger]
        lists_words(ws, sum) && sum_entries(out, nw) == flat(ws, sum);
    let made: Seq<Entry<S>> = spread(branches(g, w), param_index(g), ts);
    lemma_empty_holds::<S>();
    lemma_with_branches_holds(Map::empty(), Seq::empty(), branches(g, w), param_index(g), ts);
    assert(Seq::<Entry<S>>::empty() + made =~= made);
    lemma_flat_holds(ws, sum, made);
    lemma_spread_is_evolved(g, w, ts);
}

/// Without truncations, the diagonal part of what one gate makes of a word is what a
/// run through that gate alone gives.
pub proof fn lemma_gate_image_is_unfiltered<S: Scalar>(
    out: Seq<WordTerm<S>>,
    st: Settings<S>,
    g: Gate,
    w: Seq<u8>,
    ts: Seq<Term<S>>,
    nw: nat,
)
    requires
        is_gate_image(out, g, w, ts, nw),
        is_proper(g, (64 * nw) as int),
        is_word(w),
        w.len() == 64 * nw,
        truncates_nothing(st),
    ensures
        same_items(
            expectation(sum_entries(out, nw)),
            expectation(propagated(st, seq![g], 0, entries_of(w, ts))),
        ),
{
    let s: Seq<Entry<S>> = entries_of(w, ts);
    lemma_gate_image(out, g, w, ts, nw);
    lemma_expectation_same(sum_entries(out, nw), evolved(g, s));
    lemma_run_is_composition(st, seq![g], s, 64 * nw);
    assert(evolved_through(seq![g], 0, s) == evolved_through(seq![g], 1, evolved(g, s)));
}

/// Evolves one word through one gate, on planes of `NW` words, and lists the words
/// that come out with their terms, diagonal or not.
#[verifier::rlimit(50)]
pub fn evolve_single_gate_debug_impl<S: Scalar, const NW: usize>(
    kind: u8,
    wire0: u32,
    wire1: i64,
    param: i64,
    x: &[u64],
    z: &[u64],
    terms: Vec<CoeffTerm<S>>,
) -> (r: Vec<WordTerm<S>>)
    requires
        wires_fit((Gate { kind, wire0, wire1, param }), 64 * NW),
        can_act((Gate { kind, wire0, wire1, param }), 64 * NW),
    ensures
        is_gate_image(
            r@,
            (Gate { kind, wire0, wire1, param }),
            labels(resized(x@, NW as nat), resized(z@, NW as nat)),
            terms_of(terms@),
            NW as nat,
        ),
{
    let gate: GateSpec<NW> = gate_spec::<NW>(kind, wire0, wire1, param);
    let ghost w: Seq<u8> = labels(resized(x@, NW as nat), resized(z@, NW as nat));
    let ghost sum: Grouped<S> = gate_image(gate.gate(), w, terms_of(terms@));
    let mut map: PauliMap<S, NW> = new_map();
    evolve_one_gate(&gate, words_to_array::<NW>(x), words_to_array::<NW>(z), terms, &mut map);
    let ghost held: Contents<S, NW> = map@;
    let list: Vec<(PauliKey<NW>, Vec<CoeffTerm<S>>)> = into_entries(map);
    let ghost listed: Seq<(PauliKey<NW>, Vec<CoeffTerm<S>>)> = list@;
    let ghost ws: Seq<Seq<u8>> = words_of(listed);
    let ghost of_word = |w: Seq<u8>| entries_of(w, sum[w]);
    let mut out: Vec<WordTerm<S>> = Vec::new();
    proof {
        lemma_listing(listed, held);
        lemma_flat_map_empty::<Seq<u8>, Entry<S>>(of_word);
        assert(ws.take(0) =~= Seq::empty());
        assert(sum_entries(out@, NW as nat) =~= Seq::empty());
    }
    for item in it: list
        invariant
            it.seq() == listed,
            ws == words_of(listed),
            of_word == (|w: Seq<u8>| entries_of(w, sum[w])),
            forall|i: int|
                0 <= i < listed.len() ==> #[trigger] sum[ws[i]] == terms_of(listed[i].1@),
            forall|i: int|
                0 <= i < out@.len() ==> (#[trigger] out@[i]).0@.len() == NW && out@[i].1@.len()
                    == NW,
            sum_entries(out@, NW as nat) == flat(ws.take(it.index()), sum),
    {
        let ((ox, oz), list_terms): (PauliKey<NW>, Vec<CoeffTerm<S>>) = item;
        let ghost j: int = it.index();
        let ghost before: Seq<Entry<S>> = sum_entries(out@, NW as nat);
        let ghost ts: Seq<CoeffTerm<S>> = list_terms@;
        let ghost w1: Seq<u8> = ws[j];
        proof {
            assert(sum[ws[j]] == terms_of(ts));
            ws.lemma_flat_map_take_append(of_word, j);
            assert(before + entries_of(w1, terms_of(ts.take(0))) =~= before);
        }
        for term in inner: list_terms
            invariant
                inner.seq() == ts,
                w1 == word((ox, oz)),
                forall|i: int|
                    0 <= i < out@.len() ==> (#[trigger] out@[i]).0@.len() == NW
                        && out@[i].1@.len() == NW,
                sum_entries(out@, NW as nat) == before + entries_of(
                    w1,
                    terms_of(ts.take(inner.index())),
                ),
        {
            let ghost so_far: Seq<WordTerm<S>> = out@;
            let (c, s, cc): CoeffTerm<S> = term;
            out.push((plane_words(&ox), plane_words(&oz), c, s, cc));
            proof {
                let k: int = inner.index();
                let added: WordTerm<S> = out@[out@.len() - 1];
                assert(ox@.len() == NW && oz@.len() == NW);
                assert(resized(added.0@, NW as nat) =~= ox@);
                assert(resized(added.1@, NW as nat) =~= oz@);
                assert(entry_of(added, NW as nat) == (Entry { word: w1, term: term_of(ts[k]) }));
                assert(sum_entries(out@, NW as nat) =~= sum_entries(so_far, NW as nat).push(
                    entry_of(added, NW as nat),
                ));
                assert(entries_of(w1, terms_of(ts.take(k + 1))) =~= entries_of(
                    w1,
                    terms_of(ts.take(k)),
                ).push(Entry { word: w1, term: term_of(ts[k]) }));
                assert(sum_entries(out@, NW as nat) =~= before + entries_of(
                    w1,
                    terms_of(ts.take(k + 1)),
                ));
            }
        }
        assert(ts.take(ts.len() as int) =~= ts);
    }
    assert(ws.take(ws.len() as int) =~= ws);
    out
}

/// Evolves one word of `num_qubits` qubits through one gate and lists the words that
/// come out with their terms, diagonal or not.
pub fn evolve_single_gate_debug<S: Scalar>(
    num_qubits: u32,
    kind: u8,
    wire0: u32,
    wire1: i64,
    param: i64,
    x: Vec<u64>,
    z: Vec<u64>,
    terms: Vec<CoeffTerm<S>>,
) -> (r: Result<Vec<WordTerm<S>>, PropagateError>)
    requires
        num_qubits <= MAX_QUBITS ==> {
            &&& wires_fit(
                (Gate { kind, wire0, wire1, param }),
                (64 * word_count(num_qubits)) as int,
            )
            &&& can_act((Gate { kind, wire0, wire1, param }), (64 * word_count(num_qubits)) as int)
        },
    ensures
        num_qubits > MAX_QUBITS ==> (r matches Err(PropagateError::TooManyQubits {
            num_qubits: n,
            words,
        }) && n == num_qubits && words == word_count(num_qubits)),
        num_qubits <= MAX_QUBITS ==> (r matches Ok(out) && is_gate_image(
            out@,
            (Gate { kind, wire0, wire1, param }),
            labels(
                resized(x@, word_count(num_qubits)),
                resized(z@, word_count(num_qubits)),
            ),
            terms_of(terms@),
            word_count(num_qubits),
        )),
{
    let nw: usize = words_needed(num_qubits);
    proof {
        lemma_supported_word_counts(num_qubits, nw as nat);
    }
    match nw {
        1 => Ok(evolve_single_gate_debug_impl::<S, 1>(kind, wire0, wire1, param, &x, &z, terms)),
        2 => Ok(evolve_single_gate_debug_impl::<S, 2>(kind, wire0, wire1, param, &x, &z, terms)),
        4 => Ok(evolve_single_gate_debug_impl::<S, 4>(kind, wire0, wire1, param, &x, &z, terms)),
        8 => Ok(evolve_single_gate_debug_impl::<S, 8>(kind, wire0, wire1, param, &x, &z, terms)),
        16 => Ok(evolve_single_gate_debug_impl::<S, 16>(kind, wire0, wire1, param, &x, &z, terms)),
        32 => Ok(evolve_single_gate_debug_impl::<S, 32>(kind, wire0, wire1, param, &x, &z, terms)),
        64 => Ok(evolve_single_gate_debug_impl::<S, 64>(kind, wire0, wire1, param, &x, &z, terms)),
        128 => Ok(evolve_single_gate_debug_impl::<S, 128>(kind, wire0, wire1, param, &x, &z, terms)),
        other => Err(PropagateError::TooManyQubits { num_qubits, words: other }),
    }
}

/// `evolve_single_gate_debug` for any gate: one that cannot act is refused.
pub fn try_evolve_single_gate_debug<S: Scalar>(
    num_qubits: u32,
    kind: u8,
    wire0: u32,
    wire1: i64,
    param: i64,
    x: Vec<u64>,
    z: Vec<u64>,
    terms: Vec<CoeffTerm<S>>,
) -> (r: Result<Vec<WordTerm<S>>, PropagateError>)
    ensures
        r matches Err(PropagateError::TooManyQubits { num_qubits: n, words }) ==> n == num_qubits
            && words == word_count(num_qubits),
        r matches Err(PropagateError::TooManyQubits { num_qubits: n, words }) <==> num_qubits
            > MAX_QUBITS,
        r is Ok <==> num_qubits <= MAX_QUBITS && wires_fit(
            (Gate { kind, wire0, wire1, param }),
            (64 * word_count(num_qubits)) as int,
        ) && can_act((Gate { kind, wire0, wire1, param }), (64 * word_count(num_qubits)) as int),
        r matches Ok(out) ==> is_gate_image(
            out@,
            (Gate { kind, wire0, wire1, param }),
            labels(
                resized(x@, word_count(num_qubits)),
                resized(z@, word_count(num_qubits)),
            ),
            terms_of(terms@),
            word_count(num_qubits),
        ),
{
    let nw: usize = words_needed(num_qubits);
    proof {
        lemma_supported_word_counts(num_qubits, nw as nat);
    }
    let second: u32 = #[verifier::truncate] (wire1 as u32);
    let has_second: bool = wire1 >= 0 || kind >= rules::SWAP;
    let fit: bool = word_bit(wire0).0 < nw && (!has_second || word_bit(second).0 < nw);
    if num_qubits <= MAX_QUBITS && (kind > rules::CRZ || !fit) {
        return Err(PropagateError::CannotRun);
    }
    evolve_single_gate_debug(num_qubits, kind, wire0, wire1, param, x, z, terms)
}

} // verus!
