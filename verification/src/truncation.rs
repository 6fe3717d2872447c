//! What the truncations of terms leave: exactly those terms of the full result that are
//! within the bounds.
//!
//! A branch never takes a sine or a cosine from a term, and in exact arithmetic it never
//! raises the magnitude of a coefficient. So a term that is dropped on the way could
//! not have come back within the bounds.

use vstd::prelude::*;

use crate::grouping::{lemma_filter_all, lemma_filter_twice};
use crate::model::{
    branch_term, branches, coefficient_kept, diagonal_part, evolved, expectation, frequency_kept,
    images, is_diagonal, param_index, propagated, scaled, stepped, survives_pruning,
    survives_truncation, touches, Branch, Entry, Factor, Gate, Settings, Term,
};
use crate::pruning::{
    all_proper, all_words, evolved_through, has_word, is_proper, lemma_bare_run,
    lemma_evolved_words, lemma_pruning_is_exact, lemma_untouched_sum_stays, truncates_nothing,
    unpruned,
};
use crate::reorder::{lemma_every_filter, lemma_same_filter, same_items};
use crate::rules;
use crate::scalar::{is_inv_sqrt2, magnitude, Arith};

verus! {

/// Whether a factor is one that a gate can multiply by: a sign, or a sign over the
/// square root of two.
pub open spec fn is_gate_factor(f: Factor) -> bool {
    match f {
        Factor::Sign(sign) => sign == 1 || sign == -1,
        _ => true,
    }
}

/// Whether a T gate is among the gates.
pub open spec fn has_t(gates: Seq<Gate>) -> bool {
    exists|i: int| 0 <= i < gates.len() && (#[trigger] gates[i]).kind == rules::T
}

/// Whether no factor of a gate lifts a coefficient over `bound`. The phases of a T gate
/// count only where `phases` says so.
pub open spec fn factors_do_not_lift<S: Arith>(phases: bool, bound: S) -> bool {
    forall|f: Factor, c: S|
        is_gate_factor(f) && (f is Phase ==> phases) && (#[trigger] scaled(f, c)).spec_reaches(bound)
            ==> c.spec_reaches(bound)
}

/// Whether the truncations in use keep a term, whatever its word.
pub open spec fn term_kept<S: Arith>(st: Settings<S>, t: Term<S>) -> bool {
    frequency_kept(st.k2, t) && coefficient_kept(st.coeff_threshold, t)
}

/// Gates multiply by gate factors.
proof fn lemma_branch_factor(g: Gate, w: Seq<u8>, k: int)
    requires
        0 <= k < branches(g, w).len(),
    ensures
        is_gate_factor(branches(g, w)[k].factor),
        branches(g, w)[k].factor is Phase ==> g.kind == rules::T,
{
}

/// Where an image is kept, so was the entry it comes from.
proof fn lemma_parent_is_kept<S: Arith>(st: Settings<S>, g: Gate, e: Entry<S>, k: int)
    requires
        st.k1 < 0,
        st.coeff_threshold.spec_is_nonnegative() ==> factors_do_not_lift(
            g.kind == rules::T,
            st.coeff_threshold,
        ),
        0 <= k < images(g, e).len(),
        survives_truncation(st, images(g, e)[k]),
    ensures
        survives_truncation(st, e),
{
    let b: Branch = branches(g, e.word)[k];
    lemma_branch_factor(g, e.word, k);
    assert(images(g, e)[k].term == branch_term(b, param_index(g), e.term));
    assert(images(g, e)[k].term.coeff == scaled(b.factor, e.term.coeff));
}

/// To drop entries before a gate as well as after it changes nothing.
proof fn lemma_filter_before<S: Arith>(st: Settings<S>, g: Gate, s: Seq<Entry<S>>)
    requires
        st.k1 < 0,
        st.coeff_threshold.spec_is_nonnegative() ==> factors_do_not_lift(
            g.kind == rules::T,
            st.coeff_threshold,
        ),
    ensures
        evolved(g, s.filter(|e: Entry<S>| survives_truncation(st, e))).filter(
            |e: Entry<S>| survives_truncation(st, e),
        ) == evolved(g, s).filter(|e: Entry<S>| survives_truncation(st, e)),
    decreases s.len(),
{
    let keep = |e: Entry<S>| survives_truncation(st, e);
    let act = |e: Entry<S>| images(g, e);
    reveal(Seq::filter);
    if s.len() > 0 {
        let front: Seq<Entry<S>> = s.drop_last();
        let e: Entry<S> = s.last();
        assert(s =~= front.push(e));
        lemma_filter_before(st, g, front);
        front.lemma_flat_map_push(act, e);
        Seq::filter_distributes_over_add(evolved(g, front), images(g, e), keep);
        if keep(e) {
            front.filter(keep).lemma_flat_map_push(act, e);
            Seq::filter_distributes_over_add(
                evolved(g, front.filter(keep)),
                images(g, e),
                keep,
            );
        } else {
            assert forall|k: int| 0 <= k < images(g, e).len() implies !keep(
                #[trigger] images(g, e)[k],
            ) by {
                if keep(images(g, e)[k]) {
                    lemma_parent_is_kept(st, g, e, k);
                }
            }
            images(g, e).lemma_all_neg_filter_empty(keep);
            assert(evolved(g, front).filter(keep) + Seq::<Entry<S>>::empty() =~= evolved(
                g,
                front,
            ).filter(keep));
        }
    }
}

proof fn lemma_words_are_proper<S>(g: Gate, s: Seq<Entry<S>>, n: nat)
    requires
        is_proper(g, n as int),
        all_words(s, n),
    ensures
        forall|k: int| 0 <= k < s.len() ==> is_proper(g, (#[trigger] s[k]).word.len() as int),
{
    assert forall|k: int| 0 <= k < s.len() implies is_proper(
        g,
        (#[trigger] s[k]).word.len() as int,
    ) by {
        assert((|e: Entry<S>| has_word(e, n))(s[k]));
    }
}

/// A run that starts within the bounds.
proof fn lemma_filtered_run<S: Arith>(
    st: Settings<S>,
    gates: Seq<Gate>,
    i: int,
    s: Seq<Entry<S>>,
    n: nat,
)
    requires
        0 <= i <= gates.len(),
        all_proper(gates, n),
        all_words(s, n),
        st.k1 < 0,
        st.coeff_threshold.spec_is_nonnegative() ==> factors_do_not_lift(
            has_t(gates),
            st.coeff_threshold,
        ),
    ensures
        propagated(
            unpruned(st),
            gates,
            i,
            s.filter(|e: Entry<S>| survives_truncation(st, e)),
        ) == evolved_through(gates, i, s).filter(|e: Entry<S>| survives_truncation(st, e)),
    decreases gates.len() - i,
{
    if i < gates.len() {
        let g: Gate = gates[i];
        let bare: Settings<S> = unpruned(st);
        let keep = |e: Entry<S>| survives_truncation(st, e);
        let good = |e: Entry<S>| has_word(e, n);
        let kept: Seq<Entry<S>> = s.filter(keep);
        assert(is_proper(g, n as int));
        lemma_every_filter(s, keep, good);
        lemma_filter_all(kept, |e: Entry<S>| survives_pruning(bare, gates, i, e.word));
        assert((|e: Entry<S>| survives_truncation(bare, e)) =~= keep);
        lemma_filter_before(st, g, s);
        if !touches(g, kept) {
            lemma_words_are_proper(g, kept, n);
            lemma_untouched_sum_stays(g, kept);
            lemma_filter_all(kept, keep);
        }
        assert(stepped(bare, gates, i, kept) == evolved(g, s).filter(keep));
        lemma_evolved_words(g, s, n);
        lemma_filtered_run(st, gates, i + 1, evolved(g, s), n);
    }
}

/// A run that starts anywhere, where gate `j` touches the sum.
proof fn lemma_touched_run<S: Arith>(
    st: Settings<S>,
    gates: Seq<Gate>,
    i: int,
    j: int,
    s: Seq<Entry<S>>,
    n: nat,
)
    requires
        0 <= i <= j < gates.len(),
        touches(gates[j], s),
        all_proper(gates, n),
        all_words(s, n),
        st.k1 < 0,
        st.coeff_threshold.spec_is_nonnegative() ==> factors_do_not_lift(
            has_t(gates),
            st.coeff_threshold,
        ),
    ensures
        propagated(unpruned(st), gates, i, s) == evolved_through(gates, i, s).filter(
            |e: Entry<S>| survives_truncation(st, e),
        ),
    decreases gates.len() - i,
{
    let g: Gate = gates[i];
    let bare: Settings<S> = unpruned(st);
    let keep = |e: Entry<S>| survives_truncation(st, e);
    assert(is_proper(g, n as int));
    lemma_filter_all(s, |e: Entry<S>| survives_pruning(bare, gates, i, e.word));
    assert((|e: Entry<S>| survives_truncation(bare, e)) =~= keep);
    if touches(g, s) {
        assert(stepped(bare, gates, i, s) == evolved(g, s).filter(keep));
        lemma_evolved_words(g, s, n);
        lemma_filtered_run(st, gates, i + 1, evolved(g, s), n);
    } else {
        lemma_words_are_proper(g, s, n);
        lemma_untouched_sum_stays(g, s);
        lemma_touched_run(st, gates, i + 1, j, s, n);
    }
}

proof fn lemma_filter_of_terms<S>(s: Seq<Entry<S>>, p: spec_fn(Term<S>) -> bool)
    ensures
        s.filter(|e: Entry<S>| p(e.term)).map_values(|e: Entry<S>| e.term) == s.map_values(
            |e: Entry<S>| e.term,
        ).filter(p),
    decreases s.len(),
{
    let on_entry = |e: Entry<S>| p(e.term);
    let term = |e: Entry<S>| e.term;
    reveal(Seq::filter);
    if s.len() == 0 {
        assert(s.filter(on_entry).map_values(term) =~= s.map_values(term).filter(p));
    } else {
        let front: Seq<Entry<S>> = s.drop_last();
        lemma_filter_of_terms(front, p);
        assert(s.map_values(term).drop_last() =~= front.map_values(term));
        assert(s.filter(on_entry).map_values(term) =~= s.map_values(term).filter(p));
    }
}

proof fn lemma_expectation_filter<S: Arith>(st: Settings<S>, s: Seq<Entry<S>>)
    requires
        st.k1 < 0,
    ensures
        expectation(s.filter(|e: Entry<S>| survives_truncation(st, e))) == expectation(s).filter(
            |t: Term<S>| term_kept(st, t),
        ),
{
    let keep = |e: Entry<S>| survives_truncation(st, e);
    let diagonal = |e: Entry<S>| is_diagonal(e.word);
    let both = |e: Entry<S>| survives_truncation(st, e) && is_diagonal(e.word);
    let p = |t: Term<S>| term_kept(st, t);
    lemma_filter_twice(s, keep, diagonal, both);
    lemma_filter_twice(s, diagonal, keep, both);
    assert((|e: Entry<S>| p(e.term)) =~= keep);
    lemma_filter_of_terms(diagonal_part(s), p);
}

/// The truncations of terms drop exactly the terms that are out of bounds: where some
/// gate touches the sum, what is left are the terms of the full result within the
/// bounds.
pub proof fn lemma_truncation_is_a_filter<S: Arith>(
    st: Settings<S>,
    other: Settings<S>,
    gates: Seq<Gate>,
    s: Seq<Entry<S>>,
    n: nat,
)
    requires
        all_proper(gates, n),
        all_words(s, n),
        exists|j: int| 0 <= j < gates.len() && touches(#[trigger] gates[j], s),
        st.k1 < 0,
        st.coeff_threshold.spec_is_nonnegative() ==> factors_do_not_lift(
            has_t(gates),
            st.coeff_threshold,
        ),
        truncates_nothing(other),
    ensures
        same_items(
            expectation(propagated(st, gates, 0, s)),
            expectation(propagated(other, gates, 0, s)).filter(|t: Term<S>| term_kept(st, t)),
        ),
{
    let p = |t: Term<S>| term_kept(st, t);
    let j: int = choose|j: int| 0 <= j < gates.len() && touches(#[trigger] gates[j], s);
    let full: Seq<Entry<S>> = evolved_through(gates, 0, s);
    lemma_pruning_is_exact(st, unpruned(st), gates, s, n);
    lemma_touched_run(st, gates, 0, j, s, n);
    lemma_expectation_filter(st, full);
    lemma_pruning_is_exact(other, unpruned(other), gates, s, n);
    lemma_bare_run(other, gates, 0, s, n);
    lemma_same_filter(expectation(propagated(other, gates, 0, s)), expectation(full), p);
}

/// Frequency truncation drops exactly the terms with more sines and cosines than its
/// bound.
pub proof fn lemma_frequency_truncation_is_a_filter<S: Arith>(
    st: Settings<S>,
    other: Settings<S>,
    gates: Seq<Gate>,
    s: Seq<Entry<S>>,
    n: nat,
)
    requires
        all_proper(gates, n),
        all_words(s, n),
        exists|j: int| 0 <= j < gates.len() && touches(#[trigger] gates[j], s),
        st.k1 < 0,
        !st.coeff_threshold.spec_is_nonnegative(),
        truncates_nothing(other),
    ensures
        same_items(
            expectation(propagated(st, gates, 0, s)),
            expectation(propagated(other, gates, 0, s)).filter(
                |t: Term<S>| frequency_kept(st.k2, t),
            ),
        ),
{
    lemma_truncation_is_a_filter(st, other, gates, s, n);
    assert((|t: Term<S>| term_kept(st, t)) =~= (|t: Term<S>| frequency_kept(st.k2, t)));
}

/// Coefficient truncation drops exactly the terms whose coefficient does not reach its
/// threshold, where no factor of a gate lifts one over it.
pub proof fn lemma_coefficient_truncation_is_a_filter<S: Arith>(
    st: Settings<S>,
    other: Settings<S>,
    gates: Seq<Gate>,
    s: Seq<Entry<S>>,
    n: nat,
)
    requires
        all_proper(gates, n),
        all_words(s, n),
        exists|j: int| 0 <= j < gates.len() && touches(#[trigger] gates[j], s),
        st.k1 < 0,
        st.k2 < 0,
        factors_do_not_lift(
            has_t(gates),
            st.coeff_threshold,
        ),
        truncates_nothing(other),
    ensures
        same_items(
            expectation(propagated(st, gates, 0, s)),
            expectation(propagated(other, gates, 0, s)).filter(
                |t: Term<S>| coefficient_kept(st.coeff_threshold, t),
            ),
        ),
{
    lemma_truncation_is_a_filter(st, other, gates, s, n);
    assert((|t: Term<S>| term_kept(st, t)) =~= (|t: Term<S>|
        coefficient_kept(st.coeff_threshold, t)));
}

/// In exact arithmetic no factor of a gate lifts a coefficient.
pub proof fn lemma_real_factors_do_not_lift(phases: bool, bound: real)
    requires
        phases ==> is_inv_sqrt2(real::spec_inv_sqrt2()),
    ensures
        factors_do_not_lift(phases, bound),
{
    let h: real = real::spec_inv_sqrt2();
    if phases {
        assert(0real < h < 1real) by (nonlinear_arith)
            requires
                h > 0real,
                2real * (h * h) == 1real,
        ;
    }
    assert forall|f: Factor, c: real|
        is_gate_factor(f) && (f is Phase ==> phases) && (#[trigger] scaled(f, c)).spec_reaches(
            bound,
        ) implies c.spec_reaches(bound) by {
        let m: real = magnitude(c);
        if phases {
            assert(h * m <= m) by (nonlinear_arith)
                requires
                    0real < h < 1real,
                    m >= 0real,
            ;
        }
        assert(h * (-c) == -(h * c)) by (nonlinear_arith);
        assert((-h) * c == -(h * c)) by (nonlinear_arith);
        assert(1real * c == c) by (nonlinear_arith);
        assert((-1real) * c == -c) by (nonlinear_arith);
        assert(magnitude(scaled(f, c)) <= m) by {
            match f {
                Factor::Sign(sign) => {
                    if sign == 1 {
                        assert(real::spec_of_sign(sign) == 1real);
                    } else {
                        assert(real::spec_of_sign(sign) == -1real);
                    }
                },
                Factor::Phase(negative) => {
                    if c < 0real {
                        assert(h * m == -(h * c));
                    }
                    assert(h * m >= 0real) by (nonlinear_arith)
                        requires
                            h > 0real,
                            m >= 0real,
                    ;
                },
                _ => {},
            }
        }
    }
}

/// In exact arithmetic, coefficient truncation drops exactly the terms whose coefficient
/// is of a magnitude below its threshold.
pub proof fn lemma_real_coefficient_truncation_is_a_filter(
    st: Settings<real>,
    other: Settings<real>,
    gates: Seq<Gate>,
    s: Seq<Entry<real>>,
    n: nat,
)
    requires
        all_proper(gates, n),
        all_words(s, n),
        exists|j: int| 0 <= j < gates.len() && touches(#[trigger] gates[j], s),
        st.k1 < 0,
        st.k2 < 0,
        truncates_nothing(other),
        has_t(gates) ==> is_inv_sqrt2(real::spec_inv_sqrt2()),
    ensures
        same_items(
            expectation(propagated(st, gates, 0, s)),
            expectation(propagated(other, gates, 0, s)).filter(
                |t: Term<real>| coefficient_kept(st.coeff_threshold, t),
            ),
        ),
{
    lemma_real_factors_do_not_lift(
            has_t(gates),
            st.coeff_threshold,
        );
    lemma_coefficient_truncation_is_a_filter(st, other, gates, s, n);
}

} // verus!
