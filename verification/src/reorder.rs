//! Sequences up to the order of their items.

use vstd::prelude::*;

verus! {

/// How often `a` occurs in `s`.
pub open spec fn occurrences<A>(s: Seq<A>, a: A) -> nat {
    s.to_multiset().count(a)
}

/// Whether two sequences hold the same items, each as often.
pub open spec fn same_items<A>(s: Seq<A>, t: Seq<A>) -> bool {
    s.to_multiset() == t.to_multiset()
}

pub proof fn lemma_occurrences_empty<A>(a: A)
    ensures
        occurrences(Seq::<A>::empty(), a) == 0,
{
    broadcast use vstd::seq_lib::to_multiset_contains;

    assert(!Seq::<A>::empty().contains(a));
}

pub proof fn lemma_occurrences_push<A>(s: Seq<A>, x: A, a: A)
    ensures
        occurrences(s.push(x), a) == occurrences(s, a) + if a == x {
            1nat
        } else {
            0nat
        },
{
    broadcast use vstd::multiset::group_multiset_axioms;
    broadcast use vstd::seq_lib::to_multiset_build;

    assert(s.push(x).to_multiset() =~= s.to_multiset().insert(x));
}

pub proof fn lemma_occurrences_add<A>(s: Seq<A>, t: Seq<A>, a: A)
    ensures
        occurrences(s + t, a) == occurrences(s, a) + occurrences(t, a),
{
    broadcast use vstd::multiset::group_multiset_axioms;

    vstd::seq_lib::lemma_multiset_commutative(s, t);
}

pub proof fn lemma_occurrences_positive<A>(s: Seq<A>, a: A)
    ensures
        occurrences(s, a) > 0 <==> s.contains(a),
{
    broadcast use vstd::seq_lib::to_multiset_contains;

}

pub proof fn lemma_occurrences_filter<A>(s: Seq<A>, keep: spec_fn(A) -> bool, a: A)
    ensures
        occurrences(s.filter(keep), a) == if keep(a) {
            occurrences(s, a)
        } else {
            0
        },
    decreases s.len(),
{
    reveal(Seq::filter);
    if s.len() == 0 {
        assert(s =~= Seq::<A>::empty());
        lemma_occurrences_empty(a);
    } else {
        let front: Seq<A> = s.drop_last();
        lemma_occurrences_filter(front, keep, a);
        assert(s =~= front.push(s.last()));
        lemma_occurrences_push(front, s.last(), a);
        if keep(s.last()) {
            lemma_occurrences_push(front.filter(keep), s.last(), a);
        }
    }
}

/// Sequences in which every item occurs as often hold the same items.
pub proof fn lemma_same_by_occurrences<A>(s: Seq<A>, t: Seq<A>)
    requires
        forall|a: A| occurrences(s, a) == #[trigger] occurrences(t, a),
    ensures
        same_items(s, t),
{
    broadcast use vstd::multiset::group_multiset_axioms;

    assert forall|a: A| s.to_multiset().count(a) == t.to_multiset().count(a) by {
        assert(occurrences(s, a) == occurrences(t, a));
    }
    assert(s.to_multiset() =~= t.to_multiset());
}

pub proof fn lemma_same_contains<A>(s: Seq<A>, t: Seq<A>, a: A)
    requires
        same_items(s, t),
    ensures
        s.contains(a) <==> t.contains(a),
{
    lemma_occurrences_positive(s, a);
    lemma_occurrences_positive(t, a);
}

pub proof fn lemma_same_len<A>(s: Seq<A>, t: Seq<A>)
    requires
        same_items(s, t),
    ensures
        s.len() == t.len(),
{
    broadcast use vstd::seq_lib::to_multiset_len;

    assert(s.to_multiset().len() == t.to_multiset().len());
}

pub proof fn lemma_same_filter<A>(s: Seq<A>, t: Seq<A>, keep: spec_fn(A) -> bool)
    requires
        same_items(s, t),
    ensures
        same_items(s.filter(keep), t.filter(keep)),
{
    assert forall|a: A| occurrences(s.filter(keep), a) == #[trigger] occurrences(
        t.filter(keep),
        a,
    ) by {
        lemma_occurrences_filter(s, keep, a);
        lemma_occurrences_filter(t, keep, a);
    }
    lemma_same_by_occurrences(s.filter(keep), t.filter(keep));
}

pub proof fn lemma_same_add<A>(s: Seq<A>, t: Seq<A>, u: Seq<A>, v: Seq<A>)
    requires
        same_items(s, t),
        same_items(u, v),
    ensures
        same_items(s + u, t + v),
{
    vstd::seq_lib::lemma_multiset_commutative(s, u);
    vstd::seq_lib::lemma_multiset_commutative(t, v);
}

pub proof fn lemma_flat_map_empty<A, B>(f: spec_fn(A) -> Seq<B>)
    ensures
        Seq::<A>::empty().flat_map(f) == Seq::<B>::empty(),
{
    assert(Seq::<A>::empty().map_values(f) =~= Seq::<Seq<B>>::empty());
}

pub proof fn lemma_flat_map_add<A, B>(s: Seq<A>, t: Seq<A>, f: spec_fn(A) -> Seq<B>)
    ensures
        (s + t).flat_map(f) == s.flat_map(f) + t.flat_map(f),
    decreases t.len(),
{
    if t.len() == 0 {
        assert(t =~= Seq::<A>::empty());
        assert(s + t =~= s);
        lemma_flat_map_empty::<A, B>(f);
        assert(s.flat_map(f) + t.flat_map(f) =~= s.flat_map(f));
    } else {
        let front: Seq<A> = t.drop_last();
        lemma_flat_map_add(s, front, f);
        front.lemma_flat_map_push(f, t.last());
        assert(front.push(t.last()) =~= t);
        (s + front).lemma_flat_map_push(f, t.last());
        assert((s + front).push(t.last()) =~= s + t);
        assert((s + t).flat_map(f) =~= s.flat_map(f) + t.flat_map(f));
    }
}

pub proof fn lemma_same_flat_map<A, B>(s: Seq<A>, t: Seq<A>, f: spec_fn(A) -> Seq<B>)
    requires
        same_items(s, t),
    ensures
        same_items(s.flat_map(f), t.flat_map(f)),
    decreases s.len(),
{
    broadcast use vstd::seq_lib::to_multiset_len;

    if s.len() == 0 {
        assert(s.to_multiset().len() == t.to_multiset().len());
        assert(s =~= t);
    } else {
        let a: A = s.last();
        let front: Seq<A> = s.drop_last();
        assert(s =~= front.push(a));
        lemma_same_contains(s, t, a);
        assert(s.contains(a)) by {
            assert(s[s.len() - 1] == a);
        }
        let j: int = choose|j: int| 0 <= j < t.len() && t[j] == a;
        let before: Seq<A> = t.take(j);
        let after: Seq<A> = t.skip(j + 1);
        assert(t =~= before + seq![a] + after);
        assert forall|b: A| occurrences(front, b) == #[trigger] occurrences(before + after, b) by {
            lemma_occurrences_push(front, a, b);
            lemma_occurrences_add(before, after, b);
            lemma_occurrences_add(before + seq![a], after, b);
            assert(before + seq![a] =~= before.push(a));
            lemma_occurrences_push(before, a, b);
        }
        lemma_same_by_occurrences(front, before + after);
        lemma_same_flat_map(front, before + after, f);
        front.lemma_flat_map_push(f, a);
        lemma_flat_map_add(before, after, f);
        lemma_flat_map_add(before + seq![a], after, f);
        lemma_flat_map_add(before, seq![a], f);
        seq![a].lemma_flat_map_singleton(f);
        let fb: Seq<B> = before.flat_map(f);
        let fa: Seq<B> = f(a);
        let fc: Seq<B> = after.flat_map(f);
        assert forall|b: B| occurrences(s.flat_map(f), b) == #[trigger] occurrences(
            t.flat_map(f),
            b,
        ) by {
            lemma_occurrences_add(front.flat_map(f), fa, b);
            lemma_occurrences_add(fb, fc, b);
            lemma_occurrences_add(fb + fa, fc, b);
            lemma_occurrences_add(fb, fa, b);
        }
        lemma_same_by_occurrences(s.flat_map(f), t.flat_map(f));
    }
}

pub proof fn lemma_same_map<A, B>(s: Seq<A>, t: Seq<A>, f: spec_fn(A) -> B)
    requires
        same_items(s, t),
    ensures
        same_items(s.map_values(f), t.map_values(f)),
{
    let g = |a: A| seq![f(a)];
    lemma_same_flat_map(s, t, g);
    lemma_map_as_flat_map(s, f);
    lemma_map_as_flat_map(t, f);
}

proof fn lemma_map_as_flat_map<A, B>(s: Seq<A>, f: spec_fn(A) -> B)
    ensures
        s.map_values(f) == s.flat_map(|a: A| seq![f(a)]),
    decreases s.len(),
{
    let g = |a: A| seq![f(a)];
    if s.len() == 0 {
        assert(s =~= Seq::<A>::empty());
        lemma_flat_map_empty::<A, B>(g);
        assert(s.map_values(f) =~= s.flat_map(g));
    } else {
        let front: Seq<A> = s.drop_last();
        lemma_map_as_flat_map(front, f);
        front.lemma_flat_map_push(g, s.last());
        assert(front.push(s.last()) =~= s);
        assert(s.map_values(f) =~= front.map_values(f) + seq![f(s.last())]);
    }
}

/// Whether every item satisfies `p`.
pub open spec fn every<A>(s: Seq<A>, p: spec_fn(A) -> bool) -> bool {
    forall|i: int| 0 <= i < s.len() ==> p(#[trigger] s[i])
}

/// What holds of every item holds of every item selected, and so does the selection.
pub proof fn lemma_every_filter<A>(
    s: Seq<A>,
    keep: spec_fn(A) -> bool,
    p: spec_fn(A) -> bool,
)
    requires
        every(s, p),
    ensures
        every(s.filter(keep), p),
        every(s.filter(keep), keep),
    decreases s.len(),
{
    reveal(Seq::filter);
    if s.len() > 0 {
        let front: Seq<A> = s.drop_last();
        assert forall|i: int| 0 <= i < front.len() implies p(#[trigger] front[i]) by {
            assert(front[i] == s[i]);
        }
        lemma_every_filter(front, keep, p);
        assert(p(s[s.len() - 1]));
    }
}

/// What holds of all images of every item holds of every image.
pub proof fn lemma_every_flat_map<A, B>(
    s: Seq<A>,
    f: spec_fn(A) -> Seq<B>,
    p: spec_fn(A) -> bool,
    q: spec_fn(B) -> bool,
)
    requires
        every(s, p),
        forall|a: A| #[trigger] p(a) ==> every(f(a), q),
    ensures
        every(s.flat_map(f), q),
    decreases s.len(),
{
    if s.len() == 0 {
        assert(s =~= Seq::<A>::empty());
        lemma_flat_map_empty::<A, B>(f);
    } else {
        let front: Seq<A> = s.drop_last();
        assert forall|i: int| 0 <= i < front.len() implies p(#[trigger] front[i]) by {
            assert(front[i] == s[i]);
        }
        lemma_every_flat_map(front, f, p, q);
        front.lemma_flat_map_push(f, s.last());
        assert(front.push(s.last()) =~= s);
        assert(p(s[s.len() - 1]));
    }
}

/// A sequence is what a selection keeps and what it drops.
pub proof fn lemma_same_split<A>(s: Seq<A>, keep: spec_fn(A) -> bool, drop: spec_fn(A) -> bool)
    requires
        forall|a: A| #[trigger] drop(a) <==> !keep(a),
    ensures
        same_items(s, s.filter(keep) + s.filter(drop)),
{
    let parts: Seq<A> = s.filter(keep) + s.filter(drop);
    assert forall|a: A| occurrences(s, a) == #[trigger] occurrences(parts, a) by {
        lemma_occurrences_add(s.filter(keep), s.filter(drop), a);
        lemma_occurrences_filter(s, keep, a);
        lemma_occurrences_filter(s, drop, a);
        assert(drop(a) <==> !keep(a));
    }
    lemma_same_by_occurrences(s, parts);
}

} // verus!
