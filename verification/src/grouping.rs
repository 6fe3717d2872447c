//! A sum grouped by word against the same sum as a list of entries.

use vstd::prelude::*;

use crate::evolve::with_branches;
use crate::model::{
    branch_term, branch_terms, branches, diagonal_part, entries_of, evolved, expectation, images,
    is_diagonal, param_index, propagated, pruned, run_can_act, stepped, survives_pruning,
    survives_truncation, touches, touches_word, Branch, Entry, Gate, Settings, Term,
};
use crate::pauli_map::{extended, terms_at};
use crate::reorder::{
    lemma_flat_map_empty, lemma_occurrences_add, lemma_occurrences_empty, lemma_occurrences_filter,
    lemma_occurrences_positive, lemma_occurrences_push, lemma_same_by_occurrences,
    lemma_same_contains, lemma_same_filter, lemma_same_flat_map, lemma_same_len, lemma_same_map,
    occurrences, same_items,
};
use crate::scalar::Arith;

verus! {

/// A sum grouped by word.
pub type Grouped<S> = Map<Seq<u8>, Seq<Term<S>>>;

/// Whether `sum` and `s` hold the same entries, each as often.
pub open spec fn holds<S>(sum: Grouped<S>, s: Seq<Entry<S>>) -> bool {
    forall|e: Entry<S>| #[trigger]
        occurrences(s, e) == occurrences(terms_at(sum, e.word), e.term)
}

/// Whether every word of a sum has a term.
pub open spec fn no_empty_lists<S>(sum: Grouped<S>) -> bool {
    forall|w: Seq<u8>| #[trigger] sum.contains_key(w) ==> sum[w].len() > 0
}

/// Whether `ws` lists the words of a sum, each once.
pub open spec fn lists_words<S>(ws: Seq<Seq<u8>>, sum: Grouped<S>) -> bool {
    &&& ws.no_duplicates()
    &&& forall|w: Seq<u8>| #[trigger] ws.contains(w) <==> sum.contains_key(w)
}

/// The entries of the words `ws`, one word after the other.
pub open spec fn flat<S>(ws: Seq<Seq<u8>>, sum: Grouped<S>) -> Seq<Entry<S>> {
    ws.flat_map(|w: Seq<u8>| entries_of(w, sum[w]))
}

/// The entries that a list of branches makes of a list of terms, one branch after
/// the other.
pub open spec fn spread<S: Arith>(bs: Seq<Branch>, p: u32, ts: Seq<Term<S>>) -> Seq<Entry<S>>
    decreases bs.len(),
{
    if bs.len() == 0 {
        Seq::empty()
    } else {
        spread(bs.drop_last(), p, ts) + entries_of(
            bs.last().word,
            branch_terms(bs.last(), p, ts),
        )
    }
}

/// The entries that a list of branches makes of one term.
pub open spec fn row<S: Arith>(bs: Seq<Branch>, p: u32, t: Term<S>) -> Seq<Entry<S>> {
    Seq::new(bs.len(), |i: int| Entry { word: bs[i].word, term: branch_term(bs[i], p, t) })
}

pub proof fn lemma_entries_push<S>(w: Seq<u8>, ts: Seq<Term<S>>, t: Term<S>)
    ensures
        entries_of(w, ts.push(t)) == entries_of(w, ts).push(Entry { word: w, term: t }),
{
    assert(entries_of(w, ts.push(t)) =~= entries_of(w, ts).push(Entry { word: w, term: t }));
}

pub proof fn lemma_entries_occurrences<S>(w: Seq<u8>, ts: Seq<Term<S>>, e: Entry<S>)
    ensures
        occurrences(entries_of(w, ts), e) == if e.word == w {
            occurrences(ts, e.term)
        } else {
            0
        },
    decreases ts.len(),
{
    if ts.len() == 0 {
        assert(entries_of(w, ts) =~= Seq::<Entry<S>>::empty());
        assert(ts =~= Seq::<Term<S>>::empty());
        lemma_occurrences_empty(e);
        lemma_occurrences_empty(e.term);
    } else {
        let front: Seq<Term<S>> = ts.drop_last();
        let t: Term<S> = ts.last();
        assert(ts =~= front.push(t));
        lemma_entries_occurrences(w, front, e);
        lemma_entries_push(w, front, t);
        lemma_occurrences_push(front, t, e.term);
        lemma_occurrences_push(entries_of(w, front), Entry { word: w, term: t }, e);
        if e.word == w && e.term == t {
            assert(e == (Entry { word: w, term: t }));
        }
    }
}

proof fn lemma_flat_occurrences<S>(ws: Seq<Seq<u8>>, sum: Grouped<S>, e: Entry<S>)
    requires
        ws.no_duplicates(),
    ensures
        occurrences(flat(ws, sum), e) == if ws.contains(e.word) {
            occurrences(sum[e.word], e.term)
        } else {
            0
        },
    decreases ws.len(),
{
    let f = |w: Seq<u8>| entries_of(w, sum[w]);
    if ws.len() == 0 {
        assert(ws =~= Seq::<Seq<u8>>::empty());
        lemma_flat_map_empty::<Seq<u8>, Entry<S>>(f);
        lemma_occurrences_empty(e);
    } else {
        let front: Seq<Seq<u8>> = ws.drop_last();
        let w: Seq<u8> = ws.last();
        assert(ws =~= front.push(w));
        front.lemma_flat_map_push(f, w);
        lemma_flat_occurrences(front, sum, e);
        lemma_occurrences_add(flat(front, sum), entries_of(w, sum[w]), e);
        lemma_entries_occurrences(w, sum[w], e);
        assert(!front.contains(w)) by {
            if front.contains(w) {
                let j: int = choose|j: int| 0 <= j < front.len() && front[j] == w;
                assert(ws[j] == ws[ws.len() - 1]);
            }
        }
        if front.contains(e.word) {
            let j: int = choose|j: int| 0 <= j < front.len() && front[j] == e.word;
            assert(ws[j] == e.word);
        }
        if ws.contains(e.word) && e.word != w {
            let j: int = choose|j: int| 0 <= j < ws.len() && ws[j] == e.word;
            assert(front[j] == e.word);
        }
        assert(ws[ws.len() - 1] == w);
    }
}

/// A grouped sum, written out word by word, holds its entries.
pub proof fn lemma_flat_holds<S>(ws: Seq<Seq<u8>>, sum: Grouped<S>, s: Seq<Entry<S>>)
    requires
        lists_words(ws, sum),
        holds(sum, s),
    ensures
        same_items(flat(ws, sum), s),
{
    assert forall|e: Entry<S>| occurrences(flat(ws, sum), e) == #[trigger] occurrences(s, e) by {
        lemma_flat_occurrences(ws, sum, e);
        lemma_occurrences_empty(e.term);
        assert(ws.contains(e.word) <==> sum.contains_key(e.word));
    }
    lemma_same_by_occurrences(flat(ws, sum), s);
}

/// The empty sum holds no entries.
pub proof fn lemma_empty_holds<S>()
    ensures
        holds(Map::<Seq<u8>, Seq<Term<S>>>::empty(), Seq::empty()),
        no_empty_lists(Map::<Seq<u8>, Seq<Term<S>>>::empty()),
{
    assert forall|e: Entry<S>| #[trigger]
        occurrences(Seq::<Entry<S>>::empty(), e) == occurrences(
            terms_at(Map::<Seq<u8>, Seq<Term<S>>>::empty(), e.word),
            e.term,
        ) by {
        lemma_occurrences_empty(e);
        lemma_occurrences_empty(e.term);
    }
}

/// Terms added to a word are entries added to the list.
pub proof fn lemma_extended_holds<S>(
    sum: Grouped<S>,
    s: Seq<Entry<S>>,
    w: Seq<u8>,
    ts: Seq<Term<S>>,
)
    requires
        holds(sum, s),
    ensures
        holds(extended(sum, w, ts), s + entries_of(w, ts)),
        no_empty_lists(sum) && ts.len() > 0 ==> no_empty_lists(extended(sum, w, ts)),
{
    let after: Grouped<S> = extended(sum, w, ts);
    assert forall|e: Entry<S>| #[trigger]
        occurrences(s + entries_of(w, ts), e) == occurrences(terms_at(after, e.word), e.term) by {
        lemma_occurrences_add(s, entries_of(w, ts), e);
        lemma_entries_occurrences(w, ts, e);
        assert(occurrences(s, e) == occurrences(terms_at(sum, e.word), e.term));
        if e.word == w {
            lemma_occurrences_add(terms_at(sum, w), ts, e.term);
        }
    }
}

/// What the branches add to a grouped sum.
pub proof fn lemma_with_branches_holds<S: Arith>(
    sum: Grouped<S>,
    s: Seq<Entry<S>>,
    bs: Seq<Branch>,
    p: u32,
    ts: Seq<Term<S>>,
)
    requires
        holds(sum, s),
    ensures
        holds(with_branches(sum, bs, p, ts), s + spread(bs, p, ts)),
        no_empty_lists(sum) && ts.len() > 0 ==> no_empty_lists(with_branches(sum, bs, p, ts)),
    decreases bs.len(),
{
    if bs.len() == 0 {
        assert(s + spread(bs, p, ts) =~= s);
    } else {
        let front: Seq<Branch> = bs.drop_last();
        let b: Branch = bs.last();
        lemma_with_branches_holds(sum, s, front, p, ts);
        lemma_extended_holds(
            with_branches(sum, front, p, ts),
            s + spread(front, p, ts),
            b.word,
            branch_terms(b, p, ts),
        );
        assert(s + spread(front, p, ts) + entries_of(b.word, branch_terms(b, p, ts)) =~= s + (spread(
            front,
            p,
            ts,
        ) + entries_of(b.word, branch_terms(b, p, ts))));
    }
}

proof fn lemma_spread_push<S: Arith>(bs: Seq<Branch>, p: u32, ts: Seq<Term<S>>, t: Term<S>)
    ensures
        same_items(spread(bs, p, ts.push(t)), spread(bs, p, ts) + row(bs, p, t)),
    decreases bs.len(),
{
    if bs.len() == 0 {
        assert(spread(bs, p, ts) + row(bs, p, t) =~= spread(bs, p, ts.push(t)));
    } else {
        let front: Seq<Branch> = bs.drop_last();
        let b: Branch = bs.last();
        let made: Entry<S> = Entry { word: b.word, term: branch_term(b, p, t) };
        lemma_spread_push(front, p, ts, t);
        assert(branch_terms(b, p, ts.push(t)) =~= branch_terms(b, p, ts).push(
            branch_term(b, p, t),
        ));
        lemma_entries_push(b.word, branch_terms(b, p, ts), branch_term(b, p, t));
        assert(row(bs, p, t) =~= row(front, p, t).push(made));
        let old_last: Seq<Entry<S>> = entries_of(b.word, branch_terms(b, p, ts));
        assert forall|e: Entry<S>| occurrences(spread(bs, p, ts.push(t)), e)
            == #[trigger] occurrences(spread(bs, p, ts) + row(bs, p, t), e) by {
            lemma_occurrences_add(spread(front, p, ts.push(t)), old_last.push(made), e);
            lemma_occurrences_push(old_last, made, e);
            lemma_occurrences_add(spread(front, p, ts), row(front, p, t), e);
            lemma_occurrences_add(spread(front, p, ts), old_last, e);
            lemma_occurrences_add(spread(bs, p, ts), row(bs, p, t), e);
            lemma_occurrences_push(row(front, p, t), made, e);
        }
        lemma_same_by_occurrences(spread(bs, p, ts.push(t)), spread(bs, p, ts) + row(bs, p, t));
    }
}

proof fn lemma_spread_nothing<S: Arith>(bs: Seq<Branch>, p: u32)
    ensures
        spread::<S>(bs, p, Seq::empty()) == Seq::<Entry<S>>::empty(),
    decreases bs.len(),
{
    if bs.len() > 0 {
        lemma_spread_nothing::<S>(bs.drop_last(), p);
        assert(spread::<S>(bs, p, Seq::empty()) =~= Seq::<Entry<S>>::empty());
    }
}

/// Acting on the terms of a word branch by branch is acting on its entries one by
/// one.
pub proof fn lemma_spread_is_evolved<S: Arith>(g: Gate, w: Seq<u8>, ts: Seq<Term<S>>)
    ensures
        same_items(spread(branches(g, w), param_index(g), ts), evolved(g, entries_of(w, ts))),
    decreases ts.len(),
{
    let bs: Seq<Branch> = branches(g, w);
    let p: u32 = param_index(g);
    let f = |e: Entry<S>| images(g, e);
    if ts.len() == 0 {
        assert(ts =~= Seq::<Term<S>>::empty());
        lemma_spread_nothing::<S>(bs, p);
        assert(entries_of(w, ts) =~= Seq::<Entry<S>>::empty());
        lemma_flat_map_empty::<Entry<S>, Entry<S>>(f);
    } else {
        let front: Seq<Term<S>> = ts.drop_last();
        let t: Term<S> = ts.last();
        let e: Entry<S> = Entry { word: w, term: t };
        assert(ts =~= front.push(t));
        lemma_spread_is_evolved(g, w, front);
        lemma_spread_push(bs, p, front, t);
        lemma_entries_push(w, front, t);
        entries_of(w, front).lemma_flat_map_push(f, e);
        assert(row(bs, p, t) =~= images(g, e));
        assert forall|a: Entry<S>| occurrences(spread(bs, p, ts), a) == #[trigger] occurrences(
            evolved(g, entries_of(w, ts)),
            a,
        ) by {
            lemma_occurrences_add(spread(bs, p, front), row(bs, p, t), a);
            lemma_occurrences_add(evolved(g, entries_of(w, front)), images(g, e), a);
        }
        lemma_same_by_occurrences(spread(bs, p, ts), evolved(g, entries_of(w, ts)));
    }
}

/// A word is in a sum without empty lists exactly where some entry has it.
pub proof fn lemma_word_has_entry<S>(sum: Grouped<S>, s: Seq<Entry<S>>, w: Seq<u8>)
    requires
        holds(sum, s),
        no_empty_lists(sum),
    ensures
        sum.contains_key(w) <==> exists|i: int| 0 <= i < s.len() && (#[trigger] s[i]).word == w,
{
    if sum.contains_key(w) {
        let e: Entry<S> = Entry { word: w, term: sum[w][0] };
        lemma_occurrences_positive(sum[w], e.term);
        assert(sum[w].contains(e.term)) by {
            assert(sum[w][0] == e.term);
        }
        assert(occurrences(s, e) == occurrences(terms_at(sum, e.word), e.term));
        lemma_occurrences_positive(s, e);
        let i: int = choose|i: int| 0 <= i < s.len() && s[i] == e;
        assert(s[i].word == w);
    }
    if exists|i: int| 0 <= i < s.len() && (#[trigger] s[i]).word == w {
        let i: int = choose|i: int| 0 <= i < s.len() && (#[trigger] s[i]).word == w;
        lemma_occurrences_positive(s, s[i]);
        assert(s.contains(s[i]));
        assert(occurrences(s, s[i]) == occurrences(terms_at(sum, s[i].word), s[i].term));
        lemma_occurrences_empty(s[i].term);
    }
}

// ---------------------------------------------------------------------
// The order of entries
// ---------------------------------------------------------------------

proof fn lemma_touches_same<S>(g: Gate, s: Seq<Entry<S>>, t: Seq<Entry<S>>)
    requires
        same_items(s, t),
        touches(g, s),
    ensures
        touches(g, t),
{
    let i: int = choose|i: int| 0 <= i < s.len() && #[trigger] touches_word(g, s[i].word);
    assert(s.contains(s[i]));
    lemma_same_contains(s, t, s[i]);
    let j: int = choose|j: int| 0 <= j < t.len() && t[j] == s[i];
    assert(touches_word(g, t[j].word));
}

/// The order of the entries does not matter: runs that start from the same entries
/// end with the same entries.
pub proof fn lemma_propagated_same<S: Arith>(
    st: Settings<S>,
    gates: Seq<Gate>,
    i: int,
    s: Seq<Entry<S>>,
    t: Seq<Entry<S>>,
)
    requires
        same_items(s, t),
    ensures
        same_items(propagated(st, gates, i, s), propagated(st, gates, i, t)),
        same_items(
            expectation(propagated(st, gates, i, s)),
            expectation(propagated(st, gates, i, t)),
        ),
    decreases gates.len() - i,
{
    if 0 <= i < gates.len() {
        let g: Gate = gates[i];
        if touches(g, s) {
            lemma_touches_same(g, s, t);
            lemma_same_filter(s, t, |e: Entry<S>| survives_pruning(st, gates, i, e.word));
            lemma_same_flat_map(
                pruned(st, gates, i, s),
                pruned(st, gates, i, t),
                |e: Entry<S>| images(g, e),
            );
            lemma_same_filter(
                evolved(g, pruned(st, gates, i, s)),
                evolved(g, pruned(st, gates, i, t)),
                |e: Entry<S>| survives_truncation(st, e),
            );
        } else if touches(g, t) {
            lemma_touches_same(g, t, s);
        }
        lemma_propagated_same(st, gates, i + 1, stepped(st, gates, i, s), stepped(st, gates, i, t));
    }
    lemma_expectation_same(propagated(st, gates, i, s), propagated(st, gates, i, t));
}

/// Nor does it for whether the gates of a run can act.
pub proof fn lemma_run_can_act_same<S: Arith>(
    st: Settings<S>,
    gates: Seq<Gate>,
    i: int,
    s: Seq<Entry<S>>,
    t: Seq<Entry<S>>,
    n: int,
)
    requires
        same_items(s, t),
    ensures
        run_can_act(st, gates, i, s, n) == run_can_act(st, gates, i, t, n),
    decreases gates.len() - i,
{
    if 0 <= i < gates.len() {
        let g: Gate = gates[i];
        let keep = |e: Entry<S>| survives_pruning(st, gates, i, e.word);
        let ps: Seq<Entry<S>> = pruned(st, gates, i, s);
        let pt: Seq<Entry<S>> = pruned(st, gates, i, t);
        lemma_same_filter(s, t, keep);
        lemma_same_len(ps, pt);
        if touches(g, s) {
            lemma_touches_same(g, s, t);
            lemma_same_flat_map(ps, pt, |e: Entry<S>| images(g, e));
            lemma_same_filter(
                evolved(g, ps),
                evolved(g, pt),
                |e: Entry<S>| survives_truncation(st, e),
            );
        } else if touches(g, t) {
            lemma_touches_same(g, t, s);
        }
        lemma_run_can_act_same(
            st,
            gates,
            i + 1,
            stepped(st, gates, i, s),
            stepped(st, gates, i, t),
            n,
        );
    }
}

/// Sums with the same entries have the same expectation terms.
pub proof fn lemma_expectation_same<S>(s: Seq<Entry<S>>, t: Seq<Entry<S>>)
    requires
        same_items(s, t),
    ensures
        same_items(expectation(s), expectation(t)),
{
    lemma_same_filter(s, t, |e: Entry<S>| is_diagonal(e.word));
    lemma_same_map(diagonal_part(s), diagonal_part(t), |e: Entry<S>| e.term);
}

/// One grouped sum holds one collection of entries.
pub proof fn lemma_held_entries_are_the_same<S>(
    sum: Grouped<S>,
    s: Seq<Entry<S>>,
    t: Seq<Entry<S>>,
)
    requires
        holds(sum, s),
        holds(sum, t),
    ensures
        same_items(s, t),
{
    assert forall|e: Entry<S>| occurrences(s, e) == #[trigger] occurrences(t, e) by {
        assert(occurrences(s, e) == occurrences(terms_at(sum, e.word), e.term));
    }
    lemma_same_by_occurrences(s, t);
}

/// What holds of a list of entries holds of any reordering of it.
pub proof fn lemma_holds_same<S>(sum: Grouped<S>, s: Seq<Entry<S>>, t: Seq<Entry<S>>)
    requires
        holds(sum, s),
        same_items(s, t),
    ensures
        holds(sum, t),
{
    assert forall|e: Entry<S>| #[trigger]
        occurrences(t, e) == occurrences(terms_at(sum, e.word), e.term) by {
        assert(occurrences(s, e) == occurrences(terms_at(sum, e.word), e.term));
    }
}

// ---------------------------------------------------------------------
// Selection
// ---------------------------------------------------------------------

/// The words of a sum that satisfy `keep`.
pub open spec fn words_kept<S>(sum: Grouped<S>, keep: spec_fn(Seq<u8>) -> bool) -> Grouped<S> {
    Map::new(|w: Seq<u8>| sum.contains_key(w) && keep(w), |w: Seq<u8>| sum[w])
}

/// The terms of a sum that satisfy `keep`; words without any are dropped.
pub open spec fn terms_kept<S>(sum: Grouped<S>, keep: spec_fn(Term<S>) -> bool) -> Grouped<S> {
    Map::new(
        |w: Seq<u8>| sum.contains_key(w) && sum[w].filter(keep).len() > 0,
        |w: Seq<u8>| sum[w].filter(keep),
    )
}

pub proof fn lemma_words_kept_holds<S>(
    sum: Grouped<S>,
    s: Seq<Entry<S>>,
    keep: spec_fn(Seq<u8>) -> bool,
)
    requires
        holds(sum, s),
    ensures
        holds(words_kept(sum, keep), s.filter(|e: Entry<S>| keep(e.word))),
        no_empty_lists(sum) ==> no_empty_lists(words_kept(sum, keep)),
{
    let pred = |e: Entry<S>| keep(e.word);
    assert forall|e: Entry<S>| #[trigger]
        occurrences(s.filter(pred), e) == occurrences(
            terms_at(words_kept(sum, keep), e.word),
            e.term,
        ) by {
        lemma_occurrences_filter(s, pred, e);
        lemma_occurrences_empty(e.term);
        assert(occurrences(s, e) == occurrences(terms_at(sum, e.word), e.term));
    }
}

pub proof fn lemma_terms_kept_holds<S>(
    sum: Grouped<S>,
    s: Seq<Entry<S>>,
    keep: spec_fn(Term<S>) -> bool,
)
    requires
        holds(sum, s),
    ensures
        holds(terms_kept(sum, keep), s.filter(|e: Entry<S>| keep(e.term))),
        no_empty_lists(terms_kept(sum, keep)),
{
    let pred = |e: Entry<S>| keep(e.term);
    assert forall|e: Entry<S>| #[trigger]
        occurrences(s.filter(pred), e) == occurrences(
            terms_at(terms_kept(sum, keep), e.word),
            e.term,
        ) by {
        lemma_occurrences_filter(s, pred, e);
        lemma_occurrences_empty(e.term);
        assert(occurrences(s, e) == occurrences(terms_at(sum, e.word), e.term));
        if sum.contains_key(e.word) {
            lemma_occurrences_filter(sum[e.word], keep, e.term);
            if sum[e.word].filter(keep).len() == 0 {
                assert(sum[e.word].filter(keep) =~= Seq::<Term<S>>::empty());
            }
        }
    }
}

/// Two selections in a row are one.
pub proof fn lemma_filter_twice<A>(
    s: Seq<A>,
    first: spec_fn(A) -> bool,
    second: spec_fn(A) -> bool,
    both: spec_fn(A) -> bool,
)
    requires
        forall|a: A| #[trigger] both(a) <==> first(a) && second(a),
    ensures
        s.filter(first).filter(second) == s.filter(both),
    decreases s.len(),
{
    reveal(Seq::filter);
    if s.len() > 0 {
        let front: Seq<A> = s.drop_last();
        lemma_filter_twice(front, first, second, both);
        assert(both(s.last()) <==> first(s.last()) && second(s.last()));
        if first(s.last()) {
            assert(front.filter(first).push(s.last()).drop_last() =~= front.filter(first));
        }
    }
}

/// A selection that keeps everything.
pub proof fn lemma_filter_all<A>(s: Seq<A>, keep: spec_fn(A) -> bool)
    requires
        forall|i: int| 0 <= i < s.len() ==> keep(#[trigger] s[i]),
    ensures
        s.filter(keep) == s,
    decreases s.len(),
{
    reveal(Seq::filter);
    if s.len() > 0 {
        let front: Seq<A> = s.drop_last();
        assert forall|i: int| 0 <= i < front.len() implies keep(#[trigger] front[i]) by {
            assert(front[i] == s[i]);
        }
        lemma_filter_all(front, keep);
        assert(keep(s[s.len() - 1]));
        assert(front.push(s.last()) =~= s);
    }
}

} // verus!
