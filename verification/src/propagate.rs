//! Heisenberg propagation of Pauli sums through a circuit.

use vstd::prelude::*;

use crate::bits::{
    combined_weight, count_set, lemma_support_is_union, lemma_word_injective,
    lemma_xy_support_is_x_plane, lemma_zero_plane, mask_intersects, mask_is_zero, mask_or_assign,
    mask_popcount, mask_subset, meets, plane_bits, support, weight, word, word_bit, PauliKey,
};
use crate::evolve::{evolve_one_gate, with_branches, GateSpec};
use crate::grouping::{
    flat, holds, lemma_empty_holds, lemma_expectation_same, lemma_filter_all, lemma_filter_twice,
    lemma_flat_holds, lemma_held_entries_are_the_same, lemma_holds_same, lemma_propagated_same,
    lemma_run_can_act_same, lemma_spread_is_evolved, lemma_terms_kept_holds,
    lemma_with_branches_holds, lemma_word_has_entry, lemma_words_kept_holds, lists_words,
    no_empty_lists, spread, terms_kept, words_kept, Grouped,
};
use crate::model::{
    branches, can_act, coefficient_kept, cone_budget, entries_of, evolved, expectation,
    frequency_kept, gate_mask, images, is_alive, is_diagonal, is_reducible, named_from, names_wire,
    param_index, propagated, pruned, run_can_act, stepped, survives_pruning, survives_truncation,
    term_of, terms_of, touches, touches_word, truncated, weight_kept, CoeffTerm, Entry, Gate,
    Settings, Term,
};
use crate::pauli_map::{
    drain, entries, keys, lemma_sum_at, lists, new_map, retain, sum_of, Contents, PauliMap,
};
use crate::reorder::{
    lemma_flat_map_add, lemma_flat_map_empty, lemma_same_add, lemma_same_flat_map, same_items,
};
use crate::rules;
use crate::scalar::{Arith, Scalar};

verus! {

/// The gates without their masks.
pub open spec fn gates_of<const NW: usize>(gates: Seq<GateSpec<NW>>) -> Seq<Gate> {
    Seq::new(gates.len(), |i: int| gates[i].gate())
}

/// The words of a listing of a map.
pub open spec fn words_of<S, const NW: usize>(
    list: Seq<(PauliKey<NW>, Vec<CoeffTerm<S>>)>,
) -> Seq<Seq<u8>> {
    Seq::new(list.len(), |i: int| word(list[i].0))
}

/// A listing of a map lists its words.
pub proof fn lemma_listing<S, const NW: usize>(
    list: Seq<(PauliKey<NW>, Vec<CoeffTerm<S>>)>,
    m: Contents<S, NW>,
)
    requires
        lists(list, m),
    ensures
        lists_words(words_of(list), sum_of(m)),
        forall|i: int|
            0 <= i < list.len() ==> #[trigger] sum_of(m)[words_of(list)[i]] == terms_of(list[i].1@),
{
    let ws: Seq<Seq<u8>> = words_of(list);
    assert forall|i: int, j: int| 0 <= i < ws.len() && 0 <= j < ws.len() && i != j implies ws[i]
        != ws[j] by {
        if ws[i] == ws[j] {
            lemma_word_injective(list[i].0, list[j].0);
            if i < j {
                assert(list[i].0 != list[j].0);
            } else {
                assert(list[j].0 != list[i].0);
            }
        }
    }
    assert forall|w: Seq<u8>| #[trigger] ws.contains(w) <==> sum_of(m).contains_key(w) by {
        if ws.contains(w) {
            let i: int = choose|i: int| 0 <= i < ws.len() && ws[i] == w;
            assert(m.contains_key(list[i].0));
            lemma_sum_at(m, list[i].0);
        }
        if sum_of(m).contains_key(w) {
            let k: PauliKey<NW> = choose|k: PauliKey<NW>| #[trigger]
                m.contains_key(k) && word(k) == w;
            let i: int = choose|i: int| 0 <= i < list.len() && (#[trigger] list[i]).0 == k;
            assert(ws[i] == w);
        }
    }
    assert forall|i: int| 0 <= i < list.len() implies #[trigger] sum_of(m)[ws[i]] == terms_of(
        list[i].1@,
    ) by {
        assert(m.contains_key(list[i].0));
        lemma_sum_at(m, list[i].0);
    }
}

// ---------------------------------------------------------------------
// Expectation
// ---------------------------------------------------------------------

proof fn lemma_expectation_add<S>(s: Seq<Entry<S>>, t: Seq<Entry<S>>)
    ensures
        expectation(s + t) == expectation(s) + expectation(t),
{
    Seq::filter_distributes_over_add(s, t, |e: Entry<S>| is_diagonal(e.word));
    assert(expectation(s + t) =~= expectation(s) + expectation(t));
}

proof fn lemma_expectation_of_word<S>(w: Seq<u8>, ts: Seq<Term<S>>)
    ensures
        expectation(entries_of(w, ts)) == if is_diagonal(w) {
            ts
        } else {
            Seq::empty()
        },
{
    let pred = |e: Entry<S>| is_diagonal(e.word);
    let es: Seq<Entry<S>> = entries_of(w, ts);
    if is_diagonal(w) {
        lemma_filter_all(es, pred);
        assert(expectation(es) =~= ts);
    } else {
        es.lemma_all_neg_filter_empty(pred);
        assert(expectation(es) =~= Seq::empty());
    }
}

/// A copy of a term.
fn copy_term<S: Scalar>(t: &CoeffTerm<S>) -> (r: CoeffTerm<S>)
    ensures
        term_of(r) == term_of(*t),
{
    (t.0, t.1.clone(), t.2.clone())
}

/// The terms of the words that are I or Z on every qubit, one word after the other
/// in the order in which the map is walked.
pub fn to_expectation<S: Scalar, const NW: usize>(map: &PauliMap<S, NW>) -> (r: Vec<CoeffTerm<S>>)
    ensures
        exists|ws: Seq<Seq<u8>>| #[trigger]
            lists_words(ws, sum_of(map@)) && terms_of(r@) == expectation(flat(ws, sum_of(map@))),
{
    let list: Vec<(&PauliKey<NW>, &Vec<CoeffTerm<S>>)> = entries(map);
    let ghost listed: Seq<(PauliKey<NW>, Vec<CoeffTerm<S>>)> = Seq::new(
        list@.len(),
        |i: int| (*list@[i].0, *list@[i].1),
    );
    let ghost sum: Grouped<S> = sum_of(map@);
    let ghost ws: Seq<Seq<u8>> = words_of(listed);
    let ghost of_word = |w: Seq<u8>| entries_of(w, sum[w]);
    let mut out: Vec<CoeffTerm<S>> = Vec::new();
    proof {
        lemma_listing(listed, map@);
        lemma_flat_map_empty::<Seq<u8>, Entry<S>>(of_word);
        assert(ws.take(0) =~= Seq::empty());
        lemma_expectation_of_word(Seq::empty(), Seq::<Term<S>>::empty());
        assert(entries_of(Seq::empty(), Seq::<Term<S>>::empty()) =~= Seq::empty());
        assert(terms_of(out@) =~= expectation(flat(ws.take(0), sum)));
    }
    let mut i: usize = 0;
    while i < list.len()
        invariant
            i <= list@.len(),
            listed == Seq::new(list@.len(), |i: int| (*list@[i].0, *list@[i].1)),
            ws == words_of(listed),
            of_word == (|w: Seq<u8>| entries_of(w, sum[w])),
            forall|i: int|
                0 <= i < listed.len() ==> #[trigger] sum[ws[i]] == terms_of(listed[i].1@),
            terms_of(out@) == expectation(flat(ws.take(i as int), sum)),
        decreases list@.len() - i,
    {
        let (key, terms) = list[i];
        let ghost before: Seq<CoeffTerm<S>> = out@;
        proof {
            ws.lemma_flat_map_take_append(of_word, i as int);
            lemma_expectation_add(flat(ws.take(i as int), sum), entries_of(ws[i as int], sum[ws[i as int]]));
            lemma_expectation_of_word(ws[i as int], sum[ws[i as int]]);
            lemma_xy_support_is_x_plane(*key);
            assert(listed[i as int] == (*key, *terms));
            assert(sum[ws[i as int]] == terms_of(listed[i as int].1@));
        }
        if mask_is_zero(&key.0) {
            let mut j: usize = 0;
            while j < terms.len()
                invariant
                    j <= terms@.len(),
                    terms_of(out@) == terms_of(before) + terms_of(terms@).take(j as int),
                decreases terms@.len() - j,
            {
                let ghost mid: Seq<CoeffTerm<S>> = out@;
                out.push(copy_term(&terms[j]));
                assert(terms_of(out@) =~= terms_of(mid).push(term_of(terms@[j as int])));
                assert(terms_of(terms@).take(j + 1) =~= terms_of(terms@).take(j as int).push(
                    term_of(terms@[j as int]),
                ));
                assert(terms_of(out@) =~= terms_of(before) + terms_of(terms@).take(j + 1));
                j += 1;
            }
            assert(terms_of(terms@).take(terms@.len() as int) =~= terms_of(terms@));
        } else {
            assert(terms_of(before) + Seq::<Term<S>>::empty() =~= terms_of(before));
        }
        i += 1;
    }
    assert(ws.take(list@.len() as int) =~= ws);
    out
}

// ---------------------------------------------------------------------
// Selection in the map
// ---------------------------------------------------------------------

/// Keys kept by their labels are words kept.
proof fn lemma_keys_kept<S, const NW: usize>(
    before: Contents<S, NW>,
    after: Contents<S, NW>,
    keep: spec_fn(Seq<u8>) -> bool,
)
    requires
        forall|k: PauliKey<NW>| #[trigger]
            after.contains_key(k) ==> before.contains_key(k) && keep(word(k)) && after[k]
                == before[k],
        forall|k: PauliKey<NW>| #[trigger]
            before.contains_key(k) && keep(word(k)) ==> after.contains_key(k),
    ensures
        sum_of(after) == words_kept(sum_of(before), keep),
{
    let left: Grouped<S> = sum_of(after);
    let right: Grouped<S> = words_kept(sum_of(before), keep);
    assert forall|w: Seq<u8>| #[trigger] left.dom().contains(w) implies right.dom().contains(w)
        && left[w] == right[w] by {
        let k: PauliKey<NW> = choose|k: PauliKey<NW>| #[trigger]
            after.contains_key(k) && word(k) == w;
        lemma_sum_at(after, k);
        lemma_sum_at(before, k);
    }
    assert forall|w: Seq<u8>| #[trigger] right.dom().contains(w) implies left.dom().contains(w) by {
        let k: PauliKey<NW> = choose|k: PauliKey<NW>| #[trigger]
            before.contains_key(k) && word(k) == w;
        lemma_sum_at(after, k);
    }
    assert(left =~= right);
}

/// Lists thinned out under each key are terms kept.
proof fn lemma_lists_thinned<S, const NW: usize>(
    before: Contents<S, NW>,
    after: Contents<S, NW>,
    keep: spec_fn(Term<S>) -> bool,
)
    requires
        forall|k: PauliKey<NW>| #[trigger]
            after.contains_key(k) ==> before.contains_key(k) && terms_of(after[k]@) == terms_of(
                before[k]@,
            ).filter(keep) && terms_of(before[k]@).filter(keep).len() > 0,
        forall|k: PauliKey<NW>| #[trigger]
            before.contains_key(k) && terms_of(before[k]@).filter(keep).len() > 0
                ==> after.contains_key(k),
    ensures
        sum_of(after) == terms_kept(sum_of(before), keep),
{
    let left: Grouped<S> = sum_of(after);
    let right: Grouped<S> = terms_kept(sum_of(before), keep);
    assert forall|w: Seq<u8>| #[trigger] left.dom().contains(w) implies right.dom().contains(w)
        && left[w] == right[w] by {
        let k: PauliKey<NW> = choose|k: PauliKey<NW>| #[trigger]
            after.contains_key(k) && word(k) == w;
        lemma_sum_at(after, k);
        lemma_sum_at(before, k);
    }
    assert forall|w: Seq<u8>| #[trigger] right.dom().contains(w) implies left.dom().contains(w) by {
        let k: PauliKey<NW> = choose|k: PauliKey<NW>| #[trigger]
            before.contains_key(k) && word(k) == w;
        lemma_sum_at(after, k);
        lemma_sum_at(before, k);
    }
    assert(left =~= right);
}

/// Drops the words that are X or Y on a qubit outside `allowed`, the qubits that
/// the gates from `first` on name.
fn prune_dead_qubits<S: Scalar, const NW: usize>(
    map: &mut PauliMap<S, NW>,
    allowed: &[u64; NW],
    Ghost(gates): Ghost<Seq<Gate>>,
    Ghost(first): Ghost<int>,
)
    requires
        plane_bits(allowed@) == named_from(gates, first, (64 * NW) as nat),
    ensures
        sum_of(final(map)@) == words_kept(
            sum_of(old(map)@),
            |w: Seq<u8>| is_alive(gates, first, w),
        ),
{
    let ghost keep = |w: Seq<u8>| is_alive(gates, first, w);
    retain(
        map,
        |key: &PauliKey<NW>, terms: &mut Vec<CoeffTerm<S>>| -> (r: bool)
            ensures
                *final(terms) == *old(terms),
                r == is_alive(gates, first, word(*key))
            {
                let alive: bool = mask_subset(&key.0, allowed);
                proof {
                    lemma_xy_support_is_x_plane(*key);
                    assert(word(*key).len() == 64 * NW);
                }
                alive
            },
    );
    proof {
        lemma_keys_kept(old(map)@, map@, keep);
    }
}

/// Whether the gates from `first` on that lie in the causal cone of the word with
/// the x-plane `x` are enough to bring its XY-weight to zero.
fn cone_suffices<const NW: usize>(
    x: &[u64; NW],
    gate_masks: &[[u64; NW]],
    first: usize,
    Ghost(gates): Ghost<Seq<Gate>>,
) -> (r: bool)
    requires
        64 * NW <= u32::MAX,
        first <= gate_masks@.len() == gates.len(),
        forall|j: int|
            0 <= j < gates.len() ==> plane_bits(#[trigger] gate_masks@[j]@) == gate_mask(
                gates[j],
                (64 * NW) as nat,
            ),
    ensures
        r == (count_set(plane_bits(x@)) <= cone_budget(
            gates,
            first as int,
            plane_bits(x@),
        )),
{
    let needed: u32 = mask_popcount(x);
    if needed == 0 {
        return true;
    }
    let mut cone: [u64; NW] = *x;
    let mut budget: u32 = 0;
    let mut j: usize = first;
    while j < gate_masks.len()
        invariant
            first <= j <= gate_masks@.len() == gates.len(),
            budget < needed,
            budget + cone_budget(gates, j as int, plane_bits(cone@)) == cone_budget(
                gates,
                first as int,
                plane_bits(x@),
            ),
            needed == count_set(plane_bits(x@)),
            forall|j: int|
                0 <= j < gates.len() ==> plane_bits(#[trigger] gate_masks@[j]@) == gate_mask(
                    gates[j],
                    (64 * NW) as nat,
                ),
        decreases gate_masks@.len() - j,
    {
        let mask: [u64; NW] = gate_masks[j];
        assert(plane_bits(cone@).len() == 64 * NW);
        if mask_intersects(&mask, &cone) {
            budget += 1;
            mask_or_assign(&mut cone, &mask);
            if budget >= needed {
                return true;
            }
        }
        j += 1;
    }
    false
}

/// Drops the words whose XY-weight the gates from `first` on cannot bring to zero.
fn prune_xy_weight<S: Scalar, const NW: usize>(
    map: &mut PauliMap<S, NW>,
    gate_masks: &[[u64; NW]],
    first: usize,
    Ghost(gates): Ghost<Seq<Gate>>,
)
    requires
        64 * NW <= u32::MAX,
        first <= gate_masks@.len() == gates.len(),
        forall|j: int|
            0 <= j < gates.len() ==> plane_bits(#[trigger] gate_masks@[j]@) == gate_mask(
                gates[j],
                (64 * NW) as nat,
            ),
    ensures
        sum_of(final(map)@) == words_kept(
            sum_of(old(map)@),
            |w: Seq<u8>| is_reducible(gates, first as int, w),
        ),
{
    let ghost keep = |w: Seq<u8>| is_reducible(gates, first as int, w);
    retain(
        map,
        |key: &PauliKey<NW>, terms: &mut Vec<CoeffTerm<S>>| -> (r: bool)
            ensures
                *final(terms) == *old(terms),
                r == is_reducible(gates, first as int, word(*key))
            {
                let reducible: bool = cone_suffices(&key.0, gate_masks, first, Ghost(gates));
                proof {
                    lemma_xy_support_is_x_plane(*key);
                }
                reducible
            },
    );
    proof {
        lemma_keys_kept(old(map)@, map@, keep);
    }
}

/// Drops the words whose weight is above `k1`.
fn truncate_weight<S: Scalar, const NW: usize>(map: &mut PauliMap<S, NW>, k1: u32)
    requires
        64 * NW <= u32::MAX,
    ensures
        sum_of(final(map)@) == words_kept(sum_of(old(map)@), |w: Seq<u8>| weight(w) <= k1),
{
    let ghost keep = |w: Seq<u8>| weight(w) <= k1;
    retain(
        map,
        |key: &PauliKey<NW>, terms: &mut Vec<CoeffTerm<S>>| -> (r: bool)
            ensures
                *final(terms) == *old(terms),
                r == (weight(word(*key)) <= k1)
            {
                let light: bool = combined_weight(&key.0, &key.1) <= k1;
                light
            },
    );
    proof {
        lemma_keys_kept(old(map)@, map@, keep);
    }
}

proof fn lemma_filter_step<S>(
    ts: Seq<CoeffTerm<S>>,
    i: int,
    keep: spec_fn(Term<S>) -> bool,
)
    requires
        0 <= i < ts.len(),
    ensures
        terms_of(ts.take(i + 1)).filter(keep) == if keep(term_of(ts[i])) {
            terms_of(ts.take(i)).filter(keep).push(term_of(ts[i]))
        } else {
            terms_of(ts.take(i)).filter(keep)
        },
{
    reveal(Seq::filter);
    assert(terms_of(ts.take(i + 1)).drop_last() =~= terms_of(ts.take(i)));
    assert(terms_of(ts.take(i + 1)).last() == term_of(ts[i]));
}

/// The terms with at most `k2` sines and cosines.
fn keep_low_frequency<S: Scalar>(terms: Vec<CoeffTerm<S>>, k2: usize) -> (r: Vec<CoeffTerm<S>>)
    ensures
        terms_of(r@) == terms_of(terms@).filter(
            |t: Term<S>| t.sin_idx.len() + t.cos_idx.len() <= k2,
        ),
{
    let ghost keep = |t: Term<S>| t.sin_idx.len() + t.cos_idx.len() <= k2;
    let ghost all: Seq<CoeffTerm<S>> = terms@;
    let mut out: Vec<CoeffTerm<S>> = Vec::new();
    proof {
        reveal(Seq::filter);
        assert(terms_of(all.take(0)).filter(keep) =~= Seq::empty());
        assert(terms_of(out@) =~= Seq::empty());
    }
    for t in it: terms
        invariant
            it.seq() == all,
            keep == (|t: Term<S>| t.sin_idx.len() + t.cos_idx.len() <= k2),
            terms_of(out@) == terms_of(all.take(it.index())).filter(keep),
    {
        let ghost mid: Seq<CoeffTerm<S>> = out@;
        proof {
            lemma_filter_step(all, it.index(), keep);
        }
        let low: bool = t.1.len() <= k2 && t.2.len() <= k2 - t.1.len();
        if low {
            out.push(t);
            assert(terms_of(out@) =~= terms_of(mid).push(term_of(t)));
        }
    }
    assert(all.take(all.len() as int) =~= all);
    out
}

/// The terms whose coefficient has at least the magnitude `threshold`.
fn keep_large<S: Scalar>(terms: Vec<CoeffTerm<S>>, threshold: S) -> (r: Vec<CoeffTerm<S>>)
    ensures
        terms_of(r@) == terms_of(terms@).filter(|t: Term<S>| t.coeff.spec_reaches(threshold)),
{
    let ghost keep = |t: Term<S>| t.coeff.spec_reaches(threshold);
    let ghost all: Seq<CoeffTerm<S>> = terms@;
    let mut out: Vec<CoeffTerm<S>> = Vec::new();
    proof {
        reveal(Seq::filter);
        assert(terms_of(all.take(0)).filter(keep) =~= Seq::empty());
        assert(terms_of(out@) =~= Seq::empty());
    }
    for t in it: terms
        invariant
            it.seq() == all,
            keep == (|t: Term<S>| t.coeff.spec_reaches(threshold)),
            terms_of(out@) == terms_of(all.take(it.index())).filter(keep),
    {
        let ghost mid: Seq<CoeffTerm<S>> = out@;
        proof {
            lemma_filter_step(all, it.index(), keep);
        }
        if t.0.reaches(threshold) {
            out.push(t);
            assert(terms_of(out@) =~= terms_of(mid).push(term_of(t)));
        }
    }
    assert(all.take(all.len() as int) =~= all);
    out
}

/// Drops the terms with more than `k2` sines and cosines.
fn truncate_frequency<S: Scalar, const NW: usize>(map: &mut PauliMap<S, NW>, k2: usize)
    ensures
        sum_of(final(map)@) == terms_kept(
            sum_of(old(map)@),
            |t: Term<S>| t.sin_idx.len() + t.cos_idx.len() <= k2,
        ),
{
    let ghost keep = |t: Term<S>| t.sin_idx.len() + t.cos_idx.len() <= k2;
    retain(
        map,
        |key: &PauliKey<NW>, terms: &mut Vec<CoeffTerm<S>>| -> (r: bool)
            ensures
                terms_of(final(terms)@) == terms_of(old(terms)@).filter(
                    |t: Term<S>| t.sin_idx.len() + t.cos_idx.len() <= k2,
                ),
                r == (final(terms)@.len() > 0)
            {
                let mut all: Vec<CoeffTerm<S>> = Vec::new();
                std::mem::swap(&mut all, terms);
                *terms = keep_low_frequency(all, k2);
                terms.len() > 0
            },
    );
    proof {
        lemma_lists_thinned(old(map)@, map@, keep);
    }
}

/// Drops the terms whose coefficient is of a magnitude below `threshold`.
fn truncate_coefficients<S: Scalar, const NW: usize>(map: &mut PauliMap<S, NW>, threshold: S)
    ensures
        sum_of(final(map)@) == terms_kept(
            sum_of(old(map)@),
            |t: Term<S>| t.coeff.spec_reaches(threshold),
        ),
{
    let ghost keep = |t: Term<S>| t.coeff.spec_reaches(threshold);
    retain(
        map,
        |key: &PauliKey<NW>, terms: &mut Vec<CoeffTerm<S>>| -> (r: bool)
            ensures
                terms_of(final(terms)@) == terms_of(old(terms)@).filter(
                    |t: Term<S>| t.coeff.spec_reaches(threshold),
                ),
                r == (final(terms)@.len() > 0)
            {
                let mut all: Vec<CoeffTerm<S>> = Vec::new();
                std::mem::swap(&mut all, terms);
                *terms = keep_large(all, threshold);
                terms.len() > 0
            },
    );
    proof {
        lemma_lists_thinned(old(map)@, map@, keep);
    }
}

// ---------------------------------------------------------------------
// The run
// ---------------------------------------------------------------------

/// The qubits on which some word of the map is not the identity.
fn active_qubits<S: Scalar, const NW: usize>(map: &PauliMap<S, NW>) -> (r: [u64; NW])
    ensures
        forall|q: int|
            0 <= q < 64 * NW ==> (#[trigger] plane_bits(r@)[q] <==> exists|k: PauliKey<NW>| #[trigger]
                map@.contains_key(k) && word(k)[q] != 0),
{
    let list: Vec<&PauliKey<NW>> = keys(map);
    let ghost listed: Seq<PauliKey<NW>> = Seq::new(list@.len(), |i: int| *list@[i]);
    let mut mask: [u64; NW] = [0u64; NW];
    let mut i: usize = 0;
    proof {
        lemma_zero_plane(mask@);
    }
    while i < list.len()
        invariant
            i <= list@.len(),
            listed == Seq::new(list@.len(), |i: int| *list@[i]),
            forall|q: int|
                0 <= q < 64 * NW ==> (#[trigger] plane_bits(mask@)[q] <==> exists|j: int|
                    0 <= j < i && word(#[trigger] listed[j])[q] != 0),
        decreases list@.len() - i,
    {
        let key: &PauliKey<NW> = list[i];
        let ghost before: Seq<bool> = plane_bits(mask@);
        mask_or_assign(&mut mask, &key.0);
        mask_or_assign(&mut mask, &key.1);
        proof {
            lemma_support_is_union(*key);
            assert forall|q: int| 0 <= q < 64 * NW implies (#[trigger] plane_bits(mask@)[q]
                <==> exists|j: int| 0 <= j < i + 1 && word(#[trigger] listed[j])[q] != 0) by {
                assert(plane_bits(mask@)[q] == (before[q] || support(word(*key))[q]));
                assert(listed[i as int] == *key);
            }
        }
        i += 1;
    }
    proof {
        assert forall|q: int| 0 <= q < 64 * NW implies (#[trigger] plane_bits(mask@)[q]
            <==> exists|k: PauliKey<NW>| #[trigger] map@.contains_key(k) && word(k)[q] != 0) by {
            if plane_bits(mask@)[q] {
                let j: int = choose|j: int|
                    0 <= j < list@.len() && word(#[trigger] listed[j])[q] != 0;
                assert(map@.contains_key(listed[j]));
            }
            if exists|k: PauliKey<NW>| #[trigger] map@.contains_key(k) && word(k)[q] != 0 {
                let k: PauliKey<NW> = choose|k: PauliKey<NW>| #[trigger]
                    map@.contains_key(k) && word(k)[q] != 0;
                assert(listed.contains(k));
            }
        }
    }
    mask
}

/// A gate's mask meets the active qubits exactly where it touches a word.
proof fn lemma_touches_active<S, const NW: usize>(
    g: Gate,
    active: Seq<bool>,
    m: Contents<S, NW>,
    s: Seq<Entry<S>>,
)
    requires
        holds(sum_of(m), s),
        no_empty_lists(sum_of(m)),
        active.len() == 64 * NW,
        forall|q: int|
            0 <= q < 64 * NW ==> (#[trigger] active[q] <==> exists|k: PauliKey<NW>| #[trigger]
                m.contains_key(k) && word(k)[q] != 0),
    ensures
        meets(gate_mask(g, (64 * NW) as nat), active) <==> touches(g, s),
{
    let mask: Seq<bool> = gate_mask(g, (64 * NW) as nat);
    if meets(mask, active) {
        let q: int = choose|q: int| 0 <= q < mask.len() && #[trigger] mask[q] && active[q];
        let k: PauliKey<NW> = choose|k: PauliKey<NW>| #[trigger]
            m.contains_key(k) && word(k)[q] != 0;
        lemma_sum_at(m, k);
        lemma_word_has_entry(sum_of(m), s, word(k));
        let i: int = choose|i: int| 0 <= i < s.len() && (#[trigger] s[i]).word == word(k);
        assert(k.0@.len() == NW);
        assert(s[i].word[q] != 0 && names_wire(g, q));
        assert(touches_word(g, s[i].word));
    }
    if touches(g, s) {
        let i: int = choose|i: int| 0 <= i < s.len() && #[trigger] touches_word(g, s[i].word);
        let w: Seq<u8> = s[i].word;
        let q: int = choose|q: int| 0 <= q < w.len() && names_wire(g, q) && #[trigger] w[q] != 0;
        lemma_word_has_entry(sum_of(m), s, w);
        assert(sum_of(m).contains_key(w));
        let k: PauliKey<NW> = choose|k: PauliKey<NW>| #[trigger] m.contains_key(k) && word(k) == w;
        assert(k.0@.len() == NW);
        assert(active[q]);
        assert(mask[q]);
    }
}

/// Whether a gate can act on planes of `NW` words.
pub fn gate_can_act<const NW: usize>(gate: &GateSpec<NW>) -> (r: bool)
    ensures
        r == can_act(gate.gate(), 64 * NW),
{
    let second: u32 = #[verifier::truncate] (gate.wire1 as u32);
    let known: bool = gate.kind <= rules::CRZ;
    let first_fits: bool = word_bit(gate.wire0).0 < NW;
    let second_fits: bool = gate.kind < rules::SWAP || word_bit(second).0 < NW;
    known && first_fits && second_fits
}

/// Replaces the map by what a gate makes of it, and says whether it could act on what
/// was there.
fn evolve_map<S: Scalar, const NW: usize>(
    gate: &GateSpec<NW>,
    map: &mut PauliMap<S, NW>,
    Ghost(s): Ghost<Seq<Entry<S>>>,
) -> (r: bool)
    requires
        holds(sum_of(old(map)@), s),
        no_empty_lists(sum_of(old(map)@)),
    ensures
        r == (s.len() > 0 ==> can_act(gate.gate(), 64 * NW)),
        r ==> holds(sum_of(final(map)@), evolved(gate.gate(), s)),
        r ==> no_empty_lists(sum_of(final(map)@)),
{
    let able: bool = gate_can_act(gate);
    let ghost g: Gate = gate.gate();
    let ghost sum: Grouped<S> = sum_of(map@);
    let ghost of_word = |w: Seq<u8>| entries_of(w, sum[w]);
    let ghost act = |e: Entry<S>| images(g, e);
    let mut next: PauliMap<S, NW> = new_map();
    next.reserve(map.len());
    let list: Vec<(PauliKey<NW>, Vec<CoeffTerm<S>>)> = drain(map);
    let ghost listed: Seq<(PauliKey<NW>, Vec<CoeffTerm<S>>)> = list@;
    let ghost ws: Seq<Seq<u8>> = words_of(listed);
    proof {
        lemma_listing(listed, old(map)@);
        lemma_empty_holds::<S>();
        lemma_flat_map_empty::<Seq<u8>, Entry<S>>(of_word);
        lemma_flat_map_empty::<Entry<S>, Entry<S>>(act);
        assert(ws.take(0) =~= Seq::empty());
    }
    for item in it: list
        invariant
            it.seq() == listed,
            ws == words_of(listed),
            g == gate.gate(),
            of_word == (|w: Seq<u8>| entries_of(w, sum[w])),
            act == (|e: Entry<S>| images(g, e)),
            holds(sum, s),
            no_empty_lists(sum),
            lists_words(ws, sum),
            able == can_act(g, 64 * NW),
            it.index() > 0 ==> able,
            forall|i: int|
                0 <= i < listed.len() ==> #[trigger] sum[ws[i]] == terms_of(listed[i].1@),
            holds(sum_of(next@), evolved(g, flat(ws.take(it.index()), sum))),
            no_empty_lists(sum_of(next@)),
    {
        let ((x, z), terms): (PauliKey<NW>, Vec<CoeffTerm<S>>) = item;
        let ghost j: int = it.index();
        let ghost w: Seq<u8> = ws[j];
        let ghost ts: Seq<Term<S>> = terms_of(terms@);
        let ghost done: Seq<Entry<S>> = evolved(g, flat(ws.take(j), sum));
        proof {
            assert(ws.contains(w));
            assert(sum[w] == ts);
            lemma_word_has_entry(sum, s, w);
        }
        if !able {
            return false;
        }
        proof {
            lemma_with_branches_holds(sum_of(next@), done, branches(g, w), param_index(g), ts);
            lemma_spread_is_evolved(g, w, ts);
            lemma_same_add(
                done,
                done,
                spread(branches(g, w), param_index(g), ts),
                evolved(g, entries_of(w, ts)),
            );
            lemma_flat_map_add(flat(ws.take(j), sum), entries_of(w, ts), act);
            ws.lemma_flat_map_take_append(of_word, j);
            lemma_holds_same(
                with_branches(sum_of(next@), branches(g, w), param_index(g), ts),
                done + spread(branches(g, w), param_index(g), ts),
                evolved(g, flat(ws.take(j + 1), sum)),
            );
        }
        evolve_one_gate(gate, x, z, terms, &mut next);
    }
    *map = next;
    proof {
        if s.len() > 0 {
            lemma_word_has_entry(sum, s, s[0].word);
            assert(ws.contains(s[0].word));
        }
        assert(ws.take(ws.len() as int) =~= ws);
        lemma_flat_holds(ws, sum, s);
        lemma_same_flat_map(flat(ws, sum), s, act);
        lemma_holds_same(sum_of(map@), evolved(g, flat(ws, sum)), evolved(g, s));
    }
    true
}

/// Drops the words that the pruners in use do not keep before gate `i`.
fn prune_map<S: Scalar, const NW: usize>(
    map: &mut PauliMap<S, NW>,
    st: &Settings<S>,
    gate_masks: &[[u64; NW]],
    allowed: &[u64; NW],
    i: usize,
    Ghost(gates): Ghost<Seq<Gate>>,
    Ghost(s): Ghost<Seq<Entry<S>>>,
)
    requires
        64 * NW <= u32::MAX,
        i < gate_masks@.len() == gates.len(),
        forall|j: int|
            0 <= j < gates.len() ==> plane_bits(#[trigger] gate_masks@[j]@) == gate_mask(
                gates[j],
                (64 * NW) as nat,
            ),
        plane_bits(allowed@) == named_from(gates, i as int, (64 * NW) as nat),
        holds(sum_of(old(map)@), s),
        no_empty_lists(sum_of(old(map)@)),
    ensures
        holds(sum_of(final(map)@), pruned(*st, gates, i as int, s)),
        no_empty_lists(sum_of(final(map)@)),
{
    let ghost alive = |w: Seq<u8>| is_alive(gates, i as int, w);
    let ghost reducible = |w: Seq<u8>| is_reducible(gates, i as int, w);
    let ghost first = |e: Entry<S>| st.use_dead_qubit_pruner ==> is_alive(gates, i as int, e.word);
    let ghost second = |e: Entry<S>|
        st.use_xy_weight_pruner ==> is_reducible(gates, i as int, e.word);
    let ghost both = |e: Entry<S>| survives_pruning(*st, gates, i as int, e.word);
    if st.use_dead_qubit_pruner {
        proof {
            lemma_words_kept_holds(sum_of(map@), s, alive);
            assert((|e: Entry<S>| alive(e.word)) =~= first);
        }
        prune_dead_qubits(map, allowed, Ghost(gates), Ghost(i as int));
    } else {
        proof {
            lemma_filter_all(s, first);
        }
    }
    let ghost once: Seq<Entry<S>> = s.filter(first);
    if st.use_xy_weight_pruner {
        proof {
            lemma_words_kept_holds(sum_of(map@), once, reducible);
            assert((|e: Entry<S>| reducible(e.word)) =~= second);
        }
        prune_xy_weight(map, gate_masks, i, Ghost(gates));
    } else {
        proof {
            lemma_filter_all(once, second);
        }
    }
    proof {
        lemma_filter_twice(s, first, second, both);
    }
}

/// Drops what the truncations in use do not keep.
fn truncate_map<S: Scalar, const NW: usize>(
    map: &mut PauliMap<S, NW>,
    st: &Settings<S>,
    Ghost(s): Ghost<Seq<Entry<S>>>,
)
    requires
        64 * NW <= u32::MAX,
        holds(sum_of(old(map)@), s),
        no_empty_lists(sum_of(old(map)@)),
    ensures
        holds(sum_of(final(map)@), truncated(*st, s)),
        no_empty_lists(sum_of(final(map)@)),
{
    let ghost light = |w: Seq<u8>| weight(w) <= st.k1 as u32;
    let ghost low = |t: Term<S>| t.sin_idx.len() + t.cos_idx.len() <= st.k2 as usize;
    let ghost large = |t: Term<S>| t.coeff.spec_reaches(st.coeff_threshold);
    let ghost first = |e: Entry<S>| weight_kept(st.k1, e.word);
    let ghost second = |e: Entry<S>| frequency_kept(st.k2, e.term);
    let ghost third = |e: Entry<S>| coefficient_kept(st.coeff_threshold, e.term);
    let ghost two = |e: Entry<S>| weight_kept(st.k1, e.word) && frequency_kept(st.k2, e.term);
    let ghost all = |e: Entry<S>| survives_truncation(*st, e);
    if st.k1 >= 0 {
        proof {
            lemma_words_kept_holds(sum_of(map@), s, light);
            assert((|e: Entry<S>| light(e.word)) =~= first);
        }
        truncate_weight(map, #[verifier::truncate] (st.k1 as u32));
    } else {
        proof {
            lemma_filter_all(s, first);
        }
    }
    let ghost once: Seq<Entry<S>> = s.filter(first);
    if st.k2 >= 0 {
        proof {
            lemma_terms_kept_holds(sum_of(map@), once, low);
            assert((|e: Entry<S>| low(e.term)) =~= second);
        }
        truncate_frequency(map, #[verifier::truncate] (st.k2 as usize));
    } else {
        proof {
            lemma_filter_all(once, second);
        }
    }
    let ghost twice: Seq<Entry<S>> = once.filter(second);
    if st.coeff_threshold.is_nonnegative() {
        proof {
            lemma_terms_kept_holds(sum_of(map@), twice, large);
            assert((|e: Entry<S>| large(e.term)) =~= third);
        }
        truncate_coefficients(map, st.coeff_threshold);
    } else {
        proof {
            lemma_filter_all(twice, third);
        }
    }
    proof {
        lemma_filter_twice(s, first, second, two);
        lemma_filter_twice(s, two, third, all);
    }
}

/// Propagates one Pauli sum through the gates, given in the order in which they
/// act, and takes its expectation value on the all-zero state; nothing where a gate
/// cannot act on a word that it meets. `gate_masks` holds
/// the wires of each gate, `active_qubits_from[i]` those of the gates from `i` on.
#[verifier::rlimit(50)]
pub fn try_heisenberg_one<S: Scalar, const NW: usize>(
    reversed: &[GateSpec<NW>],
    gate_masks: &[[u64; NW]],
    active_qubits_from: &[[u64; NW]],
    map: PauliMap<S, NW>,
    k1: i64,
    k2: i64,
    coeff_threshold: S,
    use_dead_qubit_pruner: bool,
    use_xy_weight_pruner: bool,
) -> (r: Option<Vec<CoeffTerm<S>>>)
    requires
        64 * NW <= u32::MAX,
        gate_masks@.len() == reversed@.len(),
        active_qubits_from@.len() >= reversed@.len(),
        forall|j: int| 0 <= j < reversed@.len() ==> (#[trigger] reversed@[j]).is_well_formed(),
        forall|j: int|
            0 <= j < reversed@.len() ==> plane_bits(#[trigger] gate_masks@[j]@) == gate_mask(
                reversed@[j].gate(),
                (64 * NW) as nat,
            ),
        forall|j: int|
            0 <= j < reversed@.len() ==> plane_bits(#[trigger] active_qubits_from@[j]@)
                == named_from(gates_of(reversed@), j, (64 * NW) as nat),
        no_empty_lists(sum_of(map@)),
        exists|s: Seq<Entry<S>>| holds(sum_of(map@), s),
    ensures
        forall|s: Seq<Entry<S>>| #[trigger]
            holds(sum_of(map@), s) ==> (r is Some <==> run_can_act(
                (Settings {
                    k1,
                    k2,
                    coeff_threshold,
                    use_dead_qubit_pruner,
                    use_xy_weight_pruner,
                }),
                gates_of(reversed@),
                0,
                s,
                64 * NW,
            )),
        r matches Some(terms) ==> forall|s: Seq<Entry<S>>| #[trigger]
            holds(sum_of(map@), s) ==> same_items(
                terms_of(terms@),
                expectation(
                    propagated(
                        (Settings {
                            k1,
                            k2,
                            coeff_threshold,
                            use_dead_qubit_pruner,
                            use_xy_weight_pruner,
                        }),
                        gates_of(reversed@),
                        0,
                        s,
                    ),
                ),
            ),
{
    let st: Settings<S> = Settings {
        k1,
        k2,
        coeff_threshold,
        use_dead_qubit_pruner,
        use_xy_weight_pruner,
    };
    let ghost start: Grouped<S> = sum_of(map@);
    let ghost gates: Seq<Gate> = gates_of(reversed@);
    let ghost s0: Seq<Entry<S>> = choose|s: Seq<Entry<S>>| holds(start, s);
    let ghost mut s: Seq<Entry<S>> = s0;
    let mut left: PauliMap<S, NW> = map;
    let mut active: [u64; NW] = active_qubits(&left);
    let n: usize = reversed.len();
    let mut i: usize = 0;
    while i < n
        invariant
            64 * NW <= u32::MAX,
            i <= n == reversed@.len() == gates.len() == gate_masks@.len(),
            n <= active_qubits_from@.len(),
            gates == gates_of(reversed@),
            forall|j: int| 0 <= j < n ==> (#[trigger] reversed@[j]).is_well_formed(),
            forall|j: int|
                0 <= j < n ==> plane_bits(#[trigger] gate_masks@[j]@) == gate_mask(
                    gates[j],
                    (64 * NW) as nat,
                ),
            forall|j: int|
                0 <= j < n ==> plane_bits(#[trigger] active_qubits_from@[j]@) == named_from(
                    gates,
                    j,
                    (64 * NW) as nat,
                ),
            forall|q: int|
                0 <= q < 64 * NW ==> (#[trigger] plane_bits(active@)[q] <==> exists|k: PauliKey<NW>|
                 #[trigger] left@.contains_key(k) && word(k)[q] != 0),
            holds(sum_of(left@), s),
            no_empty_lists(sum_of(left@)),
            start == sum_of(map@),
            st == (Settings {
                k1,
                k2,
                coeff_threshold,
                use_dead_qubit_pruner,
                use_xy_weight_pruner,
            }),
            holds(start, s0),
            run_can_act(st, gates, i as int, s, 64 * NW) == run_can_act(st, gates, 0, s0, 64 * NW),
            propagated(st, gates, i as int, s) == propagated(st, gates, 0, s0),
        decreases n - i,
    {
        let gate: &GateSpec<NW> = &reversed[i];
        proof {
            assert(reversed@[i as int].is_well_formed());
            lemma_touches_active(gate.gate(), plane_bits(active@), left@, s);
        }
        if mask_intersects(&gate.wire_mask, &active) {
            let ghost kept: Seq<Entry<S>> = pruned(st, gates, i as int, s);
            prune_map(
                &mut left,
                &st,
                gate_masks,
                &active_qubits_from[i],
                i,
                Ghost(gates),
                Ghost(s),
            );
            if !evolve_map(gate, &mut left, Ghost(kept)) {
                proof {
                    assert forall|t: Seq<Entry<S>>| #[trigger] holds(start, t) implies !run_can_act(
                        st,
                        gates,
                        0,
                        t,
                        64 * NW,
                    ) by {
                        lemma_held_entries_are_the_same(start, s0, t);
                        lemma_run_can_act_same(st, gates, 0, s0, t, 64 * NW);
                    }
                }
                return None;
            }
            truncate_map(&mut left, &st, Ghost(evolved(gate.gate(), kept)));
            active = active_qubits(&left);
        }
        proof {
            s = stepped(st, gates, i as int, s);
        }
        i += 1;
    }
    let r: Vec<CoeffTerm<S>> = to_expectation(&left);
    proof {
        let ws: Seq<Seq<u8>> = choose|ws: Seq<Seq<u8>>| #[trigger]
            lists_words(ws, sum_of(left@)) && terms_of(r@) == expectation(flat(ws, sum_of(left@)));
        lemma_flat_holds(ws, sum_of(left@), s);
        lemma_expectation_same(flat(ws, sum_of(left@)), s);
        assert forall|t: Seq<Entry<S>>| #[trigger] holds(start, t) implies same_items(
            terms_of(r@),
            expectation(propagated(st, gates, 0, t)),
        ) by {
            lemma_held_entries_are_the_same(start, s0, t);
            lemma_propagated_same(st, gates, 0, s0, t);
        }
        assert forall|t: Seq<Entry<S>>| #[trigger] holds(start, t) implies run_can_act(
            st,
            gates,
            0,
            t,
            64 * NW,
        ) by {
            lemma_held_entries_are_the_same(start, s0, t);
            lemma_run_can_act_same(st, gates, 0, s0, t, 64 * NW);
        }
    }
    Some(r)
}

/// Propagates one Pauli sum through the gates, given in the order in which they
/// act, and takes its expectation value on the all-zero state. `gate_masks` holds
/// the wires of each gate, `active_qubits_from[i]` those of the gates from `i` on.
pub fn heisenberg_one<S: Scalar, const NW: usize>(
    reversed: &[GateSpec<NW>],
    gate_masks: &[[u64; NW]],
    active_qubits_from: &[[u64; NW]],
    map: PauliMap<S, NW>,
    k1: i64,
    k2: i64,
    coeff_threshold: S,
    use_dead_qubit_pruner: bool,
    use_xy_weight_pruner: bool,
) -> (r: Vec<CoeffTerm<S>>)
    requires
        64 * NW <= u32::MAX,
        gate_masks@.len() == reversed@.len(),
        active_qubits_from@.len() >= reversed@.len(),
        forall|j: int| 0 <= j < reversed@.len() ==> (#[trigger] reversed@[j]).is_well_formed(),
        forall|j: int|
            0 <= j < reversed@.len() ==> plane_bits(#[trigger] gate_masks@[j]@) == gate_mask(
                reversed@[j].gate(),
                (64 * NW) as nat,
            ),
        forall|j: int|
            0 <= j < reversed@.len() ==> plane_bits(#[trigger] active_qubits_from@[j]@)
                == named_from(gates_of(reversed@), j, (64 * NW) as nat),
        no_empty_lists(sum_of(map@)),
        exists|s: Seq<Entry<S>>| #[trigger]
            holds(sum_of(map@), s) && run_can_act(
                (Settings {
                    k1,
                    k2,
                    coeff_threshold,
                    use_dead_qubit_pruner,
                    use_xy_weight_pruner,
                }),
                gates_of(reversed@),
                0,
                s,
                64 * NW,
            ),
    ensures
        forall|s: Seq<Entry<S>>| #[trigger]
            holds(sum_of(map@), s) ==> same_items(
                terms_of(r@),
                expectation(
                    propagated(
                        (Settings {
                            k1,
                            k2,
                            coeff_threshold,
                            use_dead_qubit_pruner,
                            use_xy_weight_pruner,
                        }),
                        gates_of(reversed@),
                        0,
                        s,
                    ),
                ),
            ),
{
    match try_heisenberg_one(
        reversed,
        gate_masks,
        active_qubits_from,
        map,
        k1,
        k2,
        coeff_threshold,
        use_dead_qubit_pruner,
        use_xy_weight_pruner,
    ) {
        Some(terms) => terms,
        None => {
            assert(false);
            Vec::new()
        },
    }
}

} // verus!
