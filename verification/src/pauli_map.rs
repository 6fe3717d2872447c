//! The hash map from Pauli words to the terms of their coefficients.
//!
//! The map is the Fx-hashed map of `rustc_hash`. What it holds is read as a map
//! from label sequences to term sequences. The order in which it is walked is
//! left open throughout.

use rustc_hash::FxHashMap;
use vstd::prelude::*;

use crate::bits::{lemma_word_injective, word, PauliKey};
use crate::model::{term_of, terms_of, CoeffTerm, Term};

verus! {

/// The hasher factory of `FxHashMap`, carried as an opaque value.
#[verifier::external_type_specification]
#[verifier::external_body]
pub struct ExFxBuildHasher(rustc_hash::FxBuildHasher);

/// One Pauli word to its current coefficient.
pub type PauliMap<S, const NW: usize> = FxHashMap<PauliKey<NW>, Vec<CoeffTerm<S>>>;

/// The contents of a `PauliMap`, key by key.
pub type Contents<S, const NW: usize> = Map<PauliKey<NW>, Vec<CoeffTerm<S>>>;

/// Whether `entries` lists the contents `m`, each key once, in whatever order.
pub open spec fn lists<S, const NW: usize>(
    entries: Seq<(PauliKey<NW>, Vec<CoeffTerm<S>>)>,
    m: Contents<S, NW>,
) -> bool {
    &&& forall|i: int, j: int|
        0 <= i < j < entries.len() ==> (#[trigger] entries[i]).0 != (#[trigger] entries[j]).0
    &&& forall|i: int|
        0 <= i < entries.len() ==> m.contains_key((#[trigger] entries[i]).0) && m[entries[i].0]
            == entries[i].1
    &&& forall|k: PauliKey<NW>| #[trigger]
        m.contains_key(k) ==> exists|i: int| 0 <= i < entries.len() && (#[trigger] entries[i]).0 == k
}

/// Whether `keys` lists the keys of `m`, each at least once.
pub open spec fn lists_keys<S, const NW: usize>(
    keys: Seq<PauliKey<NW>>,
    m: Contents<S, NW>,
) -> bool {
    &&& forall|i: int| 0 <= i < keys.len() ==> m.contains_key(#[trigger] keys[i])
    &&& forall|k: PauliKey<NW>| #[trigger] m.contains_key(k) ==> keys.contains(k)
}

// ---------------------------------------------------------------------
// Calls into the map
// ---------------------------------------------------------------------

/// `HashMap::entry` with `Entry::or_insert_with`: the list under `key`, which is
/// made empty where there is none. Whatever is written to it ends up under `key`,
/// and nothing else changes.
#[verifier::external_body]
fn slot<S, const NW: usize>(map: &mut PauliMap<S, NW>, key: PauliKey<NW>) -> (r: &mut Vec<
    CoeffTerm<S>,
>)
    ensures
        old(map)@.contains_key(key) ==> *r == old(map)@[key],
        !old(map)@.contains_key(key) ==> r@ == Seq::<CoeffTerm<S>>::empty(),
        final(map)@ == old(map)@.insert(key, *final(r)),
{
    map.entry(key).or_insert_with(Vec::new)
}

/// `HashMap::retain`: each entry is shown to `visit`, which may change the list and
/// says whether the entry stays.
#[verifier::external_body]
pub(crate) fn retain<
    S,
    const NW: usize,
    F: Fn(&PauliKey<NW>, &mut Vec<CoeffTerm<S>>) -> bool,
>(map: &mut PauliMap<S, NW>, visit: F)
    requires
        forall|k: PauliKey<NW>, v: &mut Vec<CoeffTerm<S>>|
            old(map)@.contains_key(k) && *v == old(map)@[k] ==> #[trigger] visit.requires((&k, v)),
    ensures
        forall|k: PauliKey<NW>| #[trigger]
            final(map)@.contains_key(k) ==> old(map)@.contains_key(k) && exists|
                v: &mut Vec<CoeffTerm<S>>,
            | #[trigger]
                visit.ensures((&k, v), true) && *v == old(map)@[k] && *final(v) == final(map)@[k],
        forall|k: PauliKey<NW>| #[trigger]
            old(map)@.contains_key(k) && !final(map)@.contains_key(k) ==> exists|
                v: &mut Vec<CoeffTerm<S>>,
            | #[trigger]
                visit.ensures((&k, v), false) && *v == old(map)@[k],
{
    map.retain(visit)
}

/// `HashMap::drain`: all entries are taken out, in some order.
#[verifier::external_body]
pub(crate) fn drain<S, const NW: usize>(map: &mut PauliMap<S, NW>) -> (r: Vec<
    (PauliKey<NW>, Vec<CoeffTerm<S>>),
>)
    ensures
        lists(r@, old(map)@),
        forall|k: PauliKey<NW>| !final(map)@.contains_key(k),
{
    map.drain().collect()
}

/// `HashMap::into_iter`: all entries, in some order.
#[verifier::external_body]
pub(crate) fn into_entries<S, const NW: usize>(map: PauliMap<S, NW>) -> (r: Vec<
    (PauliKey<NW>, Vec<CoeffTerm<S>>),
>)
    ensures
        lists(r@, map@),
{
    map.into_iter().collect()
}

/// `HashMap::iter`: references to all entries, in some order.
#[verifier::external_body]
pub(crate) fn entries<S, const NW: usize>(map: &PauliMap<S, NW>) -> (r: Vec<
    (&PauliKey<NW>, &Vec<CoeffTerm<S>>),
>)
    ensures
        lists(Seq::new(r@.len(), |i: int| (*r@[i].0, *r@[i].1)), map@),
{
    map.iter().collect()
}

/// `HashMap::keys`: references to all keys, in some order.
#[verifier::external_body]
pub(crate) fn keys<S, const NW: usize>(map: &PauliMap<S, NW>) -> (r: Vec<&PauliKey<NW>>)
    ensures
        lists_keys(Seq::new(r@.len(), |i: int| *r@[i]), map@),
{
    map.keys().collect()
}

// ---------------------------------------------------------------------
// Contents as a sum of words
// ---------------------------------------------------------------------

/// Whether some key of `m` has the labels `w`.
pub open spec fn has_word<S, const NW: usize>(m: Contents<S, NW>, w: Seq<u8>) -> bool {
    exists|k: PauliKey<NW>| #[trigger] m.contains_key(k) && word(k) == w
}

/// The key of `m` with the labels `w`.
pub open spec fn key_of<S, const NW: usize>(m: Contents<S, NW>, w: Seq<u8>) -> PauliKey<NW> {
    choose|k: PauliKey<NW>| #[trigger] m.contains_key(k) && word(k) == w
}

/// The contents, read as a map from words to their terms.
pub open spec fn sum_of<S, const NW: usize>(m: Contents<S, NW>) -> Map<Seq<u8>, Seq<Term<S>>> {
    Map::new(|w: Seq<u8>| has_word(m, w), |w: Seq<u8>| terms_of(m[key_of(m, w)]@))
}

/// The terms of a word, none where it is not in the sum.
pub open spec fn terms_at<S>(sum: Map<Seq<u8>, Seq<Term<S>>>, w: Seq<u8>) -> Seq<Term<S>> {
    if sum.contains_key(w) {
        sum[w]
    } else {
        Seq::empty()
    }
}

/// The sum with the terms `ts` added to the word `w`.
pub open spec fn extended<S>(
    sum: Map<Seq<u8>, Seq<Term<S>>>,
    w: Seq<u8>,
    ts: Seq<Term<S>>,
) -> Map<Seq<u8>, Seq<Term<S>>> {
    sum.insert(w, terms_at(sum, w) + ts)
}

/// What a key holds is what its labels hold.
pub proof fn lemma_sum_at<S, const NW: usize>(m: Contents<S, NW>, k: PauliKey<NW>)
    ensures
        sum_of(m).contains_key(word(k)) <==> m.contains_key(k),
        m.contains_key(k) ==> sum_of(m)[word(k)] == terms_of(m[k]@),
{
    if has_word(m, word(k)) {
        lemma_word_injective(key_of(m, word(k)), k);
    }
}

/// A write under a key is a write under its labels.
pub proof fn lemma_sum_insert<S, const NW: usize>(
    m: Contents<S, NW>,
    k: PauliKey<NW>,
    v: Vec<CoeffTerm<S>>,
)
    ensures
        sum_of(m.insert(k, v)) == sum_of(m).insert(word(k), terms_of(v@)),
{
    let left: Map<Seq<u8>, Seq<Term<S>>> = sum_of(m.insert(k, v));
    let right: Map<Seq<u8>, Seq<Term<S>>> = sum_of(m).insert(word(k), terms_of(v@));
    lemma_sum_at(m.insert(k, v), k);
    assert forall|w: Seq<u8>| #[trigger] left.dom().contains(w) implies right.dom().contains(w)
        && left[w] == right[w] by {
        let j: PauliKey<NW> = key_of(m.insert(k, v), w);
        if j != k {
            assert(m.contains_key(j));
            lemma_sum_at(m, j);
            if word(j) == word(k) {
                lemma_word_injective(j, k);
            }
        }
    }
    assert forall|w: Seq<u8>| #[trigger] right.dom().contains(w) implies left.dom().contains(w) by {
        if w != word(k) {
            let j: PauliKey<NW> = key_of(m, w);
            assert(m.insert(k, v).contains_key(j));
        }
    }
    assert(left =~= right);
}

/// Contents that are empty are an empty sum.
pub proof fn lemma_sum_empty<S, const NW: usize>()
    ensures
        sum_of(Contents::<S, NW>::empty()) == Map::<Seq<u8>, Seq<Term<S>>>::empty(),
{
    assert(sum_of(Contents::<S, NW>::empty()) =~= Map::<Seq<u8>, Seq<Term<S>>>::empty());
}

/// A map without entries.
pub fn new_map<S, const NW: usize>() -> (r: PauliMap<S, NW>)
    ensures
        r@ == Contents::<S, NW>::empty(),
        sum_of(r@) == Map::<Seq<u8>, Seq<Term<S>>>::empty(),
{
    proof {
        lemma_sum_empty::<S, NW>();
    }
    FxHashMap::default()
}

/// Adds `terms` at the end of the list of the word `key`, which is new to the map
/// or not.
pub fn insert_or_extend<S, const NW: usize>(
    map: &mut PauliMap<S, NW>,
    key: PauliKey<NW>,
    terms: Vec<CoeffTerm<S>>,
)
    ensures
        sum_of(final(map)@) == extended(sum_of(old(map)@), word(key), terms_of(terms@)),
{
    let mut terms: Vec<CoeffTerm<S>> = terms;
    let ghost added: Seq<CoeffTerm<S>> = terms@;
    let list: &mut Vec<CoeffTerm<S>> = slot(map, key);
    let ghost before: Seq<CoeffTerm<S>> = list@;
    list.append(&mut terms);
    proof {
        lemma_sum_at(old(map)@, key);
        lemma_sum_insert(old(map)@, key, map@[key]);
        assert(map@[key]@ == before + added);
        assert(terms_of(before + added) =~= terms_of(before) + terms_of(added));
        assert(terms_of(before) =~= terms_at(sum_of(old(map)@), word(key)));
        assert(map@ =~= old(map)@.insert(key, map@[key]));
    }
}

/// Adds one term at the end of the list of the word `key`.
pub fn insert_or_push<S, const NW: usize>(
    map: &mut PauliMap<S, NW>,
    key: PauliKey<NW>,
    term: CoeffTerm<S>,
)
    ensures
        sum_of(final(map)@) == extended(sum_of(old(map)@), word(key), seq![term_of(term)]),
{
    let list: &mut Vec<CoeffTerm<S>> = slot(map, key);
    let ghost before: Seq<CoeffTerm<S>> = list@;
    list.push(term);
    proof {
        lemma_sum_at(old(map)@, key);
        lemma_sum_insert(old(map)@, key, map@[key]);
        assert(map@[key]@ == before.push(term));
        assert(terms_of(before.push(term)) =~= terms_of(before) + seq![term_of(term)]);
        assert(terms_of(before) =~= terms_at(sum_of(old(map)@), word(key)));
        assert(map@ =~= old(map)@.insert(key, map@[key]));
    }
}

} // verus!
