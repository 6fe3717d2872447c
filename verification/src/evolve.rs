//! One gate on one Pauli word.

use vstd::prelude::*;

use crate::bits::{pauli_label, plane_bits, set_label, word, PauliKey};
use crate::model::{
    branch_term, branch_terms, branches, can_act, clifford_branches, controlled_branches,
    controlled_rotation_branch, controlled_rotation_branches, copies, gate_mask, grown, pair_code,
    param_index, rotation_branches, scaled, sign_factor, swap_branches, t_branches, term_of,
    terms_of, unchanged, wires_fit, Branch, CoeffTerm, Factor, Gate, Term,
};
use crate::pauli_map::{extended, insert_or_extend, sum_of, PauliMap};
use crate::rules;
use crate::rules::{branches_view, CRBranch};
use crate::scalar::{Arith, Scalar};

verus! {

/// A gate together with the mask of the wires it names.
pub struct GateSpec<const NW: usize> {
    pub kind: u8,
    pub wire0: u32,
    /// Negative unless there is a second wire.
    pub wire1: i64,
    /// Negative unless parametrised.
    pub param: i64,
    pub wire_mask: [u64; NW],
}

impl<const NW: usize> GateSpec<NW> {
    /// What is left without the mask.
    pub open spec fn gate(self) -> Gate {
        Gate { kind: self.kind, wire0: self.wire0, wire1: self.wire1, param: self.param }
    }

    /// Whether the wires that it names fit into `NW` plane words, and its
    /// mask is that of those wires.
    pub open spec fn is_well_formed(self) -> bool {
        &&& wires_fit(self.gate(), 64 * NW)
        &&& plane_bits(self.wire_mask@) == gate_mask(self.gate(), (64 * NW) as nat)
    }
}

/// The sum with each branch of a word's list of terms added to the branch's word,
/// in the order of the branches.
pub open spec fn with_branches<S: Arith>(
    sum: Map<Seq<u8>, Seq<Term<S>>>,
    bs: Seq<Branch>,
    p: u32,
    ts: Seq<Term<S>>,
) -> Map<Seq<u8>, Seq<Term<S>>>
    decreases bs.len(),
{
    if bs.len() == 0 {
        sum
    } else {
        extended(
            with_branches(sum, bs.drop_last(), p, ts),
            bs.last().word,
            branch_terms(bs.last(), p, ts),
        )
    }
}

proof fn lemma_with_push<S: Arith>(
    sum: Map<Seq<u8>, Seq<Term<S>>>,
    bs: Seq<Branch>,
    b: Branch,
    p: u32,
    ts: Seq<Term<S>>,
)
    ensures
        with_branches(sum, bs.push(b), p, ts) == extended(
            with_branches(sum, bs, p, ts),
            b.word,
            branch_terms(b, p, ts),
        ),
{
    assert(bs.push(b).drop_last() =~= bs);
}

proof fn lemma_with_one<S: Arith>(
    sum: Map<Seq<u8>, Seq<Term<S>>>,
    b: Branch,
    p: u32,
    ts: Seq<Term<S>>,
)
    ensures
        with_branches(sum, seq![b], p, ts) == extended(sum, b.word, branch_terms(b, p, ts)),
{
    lemma_with_push(sum, Seq::empty(), b, p, ts);
}

proof fn lemma_with_two<S: Arith>(
    sum: Map<Seq<u8>, Seq<Term<S>>>,
    b1: Branch,
    b2: Branch,
    p: u32,
    ts: Seq<Term<S>>,
)
    ensures
        with_branches(sum, seq![b1, b2], p, ts) == extended(
            extended(sum, b1.word, branch_terms(b1, p, ts)),
            b2.word,
            branch_terms(b2, p, ts),
        ),
{
    lemma_with_one(sum, b1, p, ts);
    lemma_with_push(sum, seq![b1], b2, p, ts);
    assert(seq![b1].push(b2) =~= seq![b1, b2]);
}

/// A branch that changes no term.
pub proof fn lemma_terms_stay<S: Arith>(b: Branch, p: u32, ts: Seq<Term<S>>)
    requires
        b.factor is One,
        b.n_sin == 0,
        b.n_cos == 0,
    ensures
        branch_terms(b, p, ts) == ts,
{
    assert forall|i: int| 0 <= i < ts.len() implies branch_term(b, p, ts[i]) == ts[i] by {
        assert(ts[i].sin_idx + copies(p, 0) =~= ts[i].sin_idx);
        assert(ts[i].cos_idx + copies(p, 0) =~= ts[i].cos_idx);
    }
    assert(branch_terms(b, p, ts) =~= ts);
}

/// A coefficient multiplied by a factor.
pub fn scale<S: Scalar>(factor: &Factor, c: S) -> (r: S)
    ensures
        r == scaled(*factor, c),
{
    match factor {
        Factor::One => c,
        Factor::Minus => c.negate(),
        Factor::Sign(sign) => S::of_sign(*sign).times(c),
        Factor::Phase(negative) => {
            let ph: S = if *negative {
                S::inv_sqrt2().negate()
            } else {
                S::inv_sqrt2()
            };
            ph.times(c)
        },
    }
}

/// Adds `n` copies of `p` at the end of `list`.
fn push_copies(list: &mut Vec<u32>, p: u32, n: u8)
    ensures
        final(list)@ == old(list)@ + copies(p, n as nat),
{
    let mut k: u8 = 0;
    assert(list@ =~= old(list)@ + copies(p, 0));
    while k < n
        invariant
            k <= n,
            list@ == old(list)@ + copies(p, k as nat),
        decreases n - k,
    {
        list.push(p);
        k += 1;
        assert(list@ =~= old(list)@ + copies(p, k as nat));
    }
}

/// Every term, with its coefficient multiplied by a factor, and with `n_sin` sines
/// and `n_cos` cosines of the angle `p` more.
pub fn grow_terms<S: Scalar>(
    terms: &Vec<CoeffTerm<S>>,
    factor: &Factor,
    p: u32,
    n_sin: u8,
    n_cos: u8,
) -> (r: Vec<CoeffTerm<S>>)
    ensures
        r@.len() == terms@.len(),
        forall|i: int|
            0 <= i < r@.len() ==> term_of(#[trigger] r@[i]) == grown(
                *factor,
                n_sin as nat,
                n_cos as nat,
                p,
                term_of(terms@[i]),
            ),
{
    let mut out: Vec<CoeffTerm<S>> = Vec::with_capacity(terms.len());
    let mut i: usize = 0;
    while i < terms.len()
        invariant
            i <= terms@.len(),
            out@.len() == i,
            forall|j: int|
                0 <= j < i ==> term_of(#[trigger] out@[j]) == grown(
                    *factor,
                    n_sin as nat,
                    n_cos as nat,
                    p,
                    term_of(terms@[j]),
                ),
        decreases terms@.len() - i,
    {
        let (c, s, cc) = &terms[i];
        let mut s2: Vec<u32> = s.clone();
        push_copies(&mut s2, p, n_sin);
        let mut cc2: Vec<u32> = cc.clone();
        push_copies(&mut cc2, p, n_cos);
        out.push((scale(factor, *c), s2, cc2));
        i += 1;
    }
    out
}

/// `grow_terms`, as the branch it belongs to.
proof fn lemma_grown_branch<S: Arith>(
    r: Seq<CoeffTerm<S>>,
    ts: Seq<CoeffTerm<S>>,
    b: Branch,
    p: u32,
)
    requires
        r.len() == ts.len(),
        forall|i: int|
            0 <= i < r.len() ==> term_of(#[trigger] r[i]) == grown(
                b.factor,
                b.n_sin,
                b.n_cos,
                p,
                term_of(ts[i]),
            ),
    ensures
        terms_of(r) == branch_terms(b, p, terms_of(ts)),
{
    assert(terms_of(r) =~= branch_terms(b, p, terms_of(ts)));
}

/// Branches without sines and cosines do not depend on the parameter.
proof fn lemma_param_is_idle<S: Arith>(
    sum: Map<Seq<u8>, Seq<Term<S>>>,
    bs: Seq<Branch>,
    p: u32,
    q: u32,
    ts: Seq<Term<S>>,
)
    requires
        forall|i: int| 0 <= i < bs.len() ==> (#[trigger] bs[i]).n_sin == 0 && bs[i].n_cos == 0,
    ensures
        with_branches(sum, bs, p, ts) == with_branches(sum, bs, q, ts),
    decreases bs.len(),
{
    if bs.len() > 0 {
        lemma_param_is_idle(sum, bs.drop_last(), p, q, ts);
        assert(bs.last() == bs[bs.len() - 1]);
        assert(copies(p, 0) =~= copies(q, 0));
        assert(branch_terms(bs.last(), p, ts) =~= branch_terms(bs.last(), q, ts));
    }
}

/// A word that passes as it is.
fn pass<S: Scalar, const NW: usize>(
    key: PauliKey<NW>,
    terms: Vec<CoeffTerm<S>>,
    map: &mut PauliMap<S, NW>,
)
    ensures
        sum_of(final(map)@) == with_branches(
            sum_of(old(map)@),
            unchanged(word(key)),
            0,
            terms_of(terms@),
        ),
{
    proof {
        let b: Branch = unchanged(word(key))[0];
        lemma_with_one(sum_of(map@), b, 0, terms_of(terms@));
        lemma_terms_stay(b, 0, terms_of(terms@));
    }
    insert_or_extend(map, key, terms);
}

/// A word that takes over the terms of another, with a constant sign.
fn pass_signed<S: Scalar, const NW: usize>(
    key: PauliKey<NW>,
    terms: Vec<CoeffTerm<S>>,
    sign: i8,
    map: &mut PauliMap<S, NW>,
)
    ensures
        sum_of(final(map)@) == with_branches(
            sum_of(old(map)@),
            seq![Branch { word: word(key), factor: sign_factor(sign), n_sin: 0, n_cos: 0 }],
            0,
            terms_of(terms@),
        ),
{
    let ghost b: Branch = Branch {
        word: word(key),
        factor: sign_factor(sign),
        n_sin: 0,
        n_cos: 0,
    };
    proof {
        lemma_with_one(sum_of(map@), b, 0, terms_of(terms@));
    }
    if sign == 1 {
        proof {
            lemma_terms_stay(b, 0, terms_of(terms@));
        }
        insert_or_extend(map, key, terms);
    } else {
        let new_terms: Vec<CoeffTerm<S>> = grow_terms(&terms, &Factor::Minus, 0, 0, 0);
        proof {
            lemma_grown_branch(new_terms@, terms@, b, 0);
        }
        insert_or_extend(map, key, new_terms);
    }
}

/// RX/RY/RZ shape: a commuting word passes; any other splits into a cosine branch
/// on the same word and a signed sine branch on a new one.
pub fn evolve_rotation<S: Scalar, const NW: usize, R: Fn(u8) -> Option<(u8, i8)>>(
    x: [u64; NW],
    z: [u64; NW],
    terms: Vec<CoeffTerm<S>>,
    wire: u32,
    param: i64,
    rule: R,
    map: &mut PauliMap<S, NW>,
)
    requires
        wire < 64 * NW,
        rule.requires((word((x, z))[wire as int],)),
    ensures
        exists|out: Option<(u8, i8)>| #[trigger]
            rule.ensures((word((x, z))[wire as int],), out) && sum_of(final(map)@)
                == with_branches(
                sum_of(old(map)@),
                rotation_branches(word((x, z)), wire, out),
                param as u32,
                terms_of(terms@),
            ),
{
    let label: u8 = pauli_label(&x, &z, wire);
    let p: u32 = #[verifier::truncate] (param as u32);
    let image: Option<(u8, i8)> = rule(label);
    let ghost bs: Seq<Branch> = rotation_branches(word((x, z)), wire, image);
    match image {
        None => {
            proof {
                lemma_param_is_idle(sum_of(map@), bs, p, 0, terms_of(terms@));
            }
            pass((x, z), terms, map);
        },
        Some((out_label, sign)) => {
            let new_key: PauliKey<NW> = set_label(x, z, wire, out_label);
            let cos_terms: Vec<CoeffTerm<S>> = grow_terms(&terms, &Factor::One, p, 0, 1);
            let sin_terms: Vec<CoeffTerm<S>> = grow_terms(&terms, &Factor::Sign(sign), p, 1, 0);
            proof {
                lemma_grown_branch(cos_terms@, terms@, bs[0], p);
                lemma_grown_branch(sin_terms@, terms@, bs[1], p);
                lemma_with_two(sum_of(map@), bs[0], bs[1], p, terms_of(terms@));
            }
            insert_or_extend(map, (x, z), cos_terms);
            insert_or_extend(map, new_key, sin_terms);
        },
    }
    assert(rule.ensures((label,), image));
}

/// H/S/SX shape: a commuting word passes; any other becomes one word with a
/// constant sign.
pub fn evolve_clifford1q<S: Scalar, const NW: usize, R: Fn(u8) -> Option<(u8, i8)>>(
    x: [u64; NW],
    z: [u64; NW],
    terms: Vec<CoeffTerm<S>>,
    wire: u32,
    rule: R,
    map: &mut PauliMap<S, NW>,
)
    requires
        wire < 64 * NW,
        rule.requires((word((x, z))[wire as int],)),
    ensures
        exists|out: Option<(u8, i8)>| #[trigger]
            rule.ensures((word((x, z))[wire as int],), out) && sum_of(final(map)@)
                == with_branches(
                sum_of(old(map)@),
                clifford_branches(word((x, z)), wire, out),
                0,
                terms_of(terms@),
            ),
{
    let label: u8 = pauli_label(&x, &z, wire);
    let image: Option<(u8, i8)> = rule(label);
    match image {
        None => pass((x, z), terms, map),
        Some((out_label, sign)) => {
            let new_key: PauliKey<NW> = set_label(x, z, wire, out_label);
            pass_signed(new_key, terms, sign, map);
        },
    }
    assert(rule.ensures((label,), image));
}

/// T shape: a commuting word passes; any other splits into two words with constant
/// phases.
pub fn evolve_t<S: Scalar, const NW: usize>(
    x: [u64; NW],
    z: [u64; NW],
    terms: Vec<CoeffTerm<S>>,
    wire: u32,
    map: &mut PauliMap<S, NW>,
)
    requires
        wire < 64 * NW,
    ensures
        sum_of(final(map)@) == with_branches(
            sum_of(old(map)@),
            t_branches(word((x, z)), wire, rules::eighth_turned(word((x, z))[wire as int])),
            0,
            terms_of(terms@),
        ),
{
    let label: u8 = pauli_label(&x, &z, wire);
    let image: Option<((u8, bool), (u8, bool))> = rules::t_rule(label);
    let ghost bs: Seq<Branch> = t_branches(word((x, z)), wire, image);
    match image {
        None => pass((x, z), terms, map),
        Some(((l1, neg1), (l2, neg2))) => {
            let k1: PauliKey<NW> = set_label(x, z, wire, l1);
            let k2: PauliKey<NW> = set_label(x, z, wire, l2);
            let t1: Vec<CoeffTerm<S>> = grow_terms(&terms, &Factor::Phase(neg1), 0, 0, 0);
            let t2: Vec<CoeffTerm<S>> = grow_terms(&terms, &Factor::Phase(neg2), 0, 0, 0);
            proof {
                lemma_grown_branch(t1@, terms@, bs[0], 0);
                lemma_grown_branch(t2@, terms@, bs[1], 0);
                lemma_with_two(sum_of(map@), bs[0], bs[1], 0, terms_of(terms@));
            }
            insert_or_extend(map, k1, t1);
            insert_or_extend(map, k2, t2);
        },
    }
}

/// SWAP: the labels on the two wires change places.
pub fn evolve_swap<S: Scalar, const NW: usize>(
    x: [u64; NW],
    z: [u64; NW],
    terms: Vec<CoeffTerm<S>>,
    w0: u32,
    w1: u32,
    map: &mut PauliMap<S, NW>,
)
    requires
        w0 < 64 * NW,
        w1 < 64 * NW,
    ensures
        sum_of(final(map)@) == with_branches(
            sum_of(old(map)@),
            swap_branches(word((x, z)), w0, w1),
            0,
            terms_of(terms@),
        ),
{
    let l0: u8 = pauli_label(&x, &z, w0);
    let l1: u8 = pauli_label(&x, &z, w1);
    let ghost w: Seq<u8> = word((x, z));
    let ghost swapped: Seq<u8> = w.update(w0 as int, w[w1 as int]).update(w1 as int, w[w0 as int]);
    if l0 == l1 {
        assert(swapped =~= w);
        pass((x, z), terms, map);
        return;
    }
    let (nx, nz): PauliKey<NW> = set_label(x, z, w0, l1);
    let (nx, nz): PauliKey<NW> = set_label(nx, nz, w1, l0);
    assert(word((nx, nz)) =~= swapped);
    pass((nx, nz), terms, map);
}

/// The code of the labels on control and target.
fn label_pair<const NW: usize>(x: &[u64; NW], z: &[u64; NW], control: u32, target: u32) -> (r: u8)
    requires
        control < 64 * NW,
        target < 64 * NW,
    ensures
        r == pair_code(word((*x, *z)), control, target),
{
    let lc: u8 = pauli_label(x, z, control);
    let lt: u8 = pauli_label(x, z, target);
    assert((lc << 2) | lt == 4 * lc + lt) by (bit_vector)
        requires
            lc < 4,
            lt < 4,
    ;
    (lc << 2) | lt
}

/// CNOT/CY/CZ shape: a commuting word passes; any other becomes one word with a
/// constant sign.
pub fn evolve_controlled<S: Scalar, const NW: usize, R: Fn(u8) -> Option<(u8, u8, i8)>>(
    x: [u64; NW],
    z: [u64; NW],
    terms: Vec<CoeffTerm<S>>,
    control: u32,
    target: u32,
    rule: R,
    map: &mut PauliMap<S, NW>,
)
    requires
        control < 64 * NW,
        target < 64 * NW,
        rule.requires((pair_code(word((x, z)), control, target),)),
    ensures
        exists|out: Option<(u8, u8, i8)>| #[trigger]
            rule.ensures((pair_code(word((x, z)), control, target),), out) && sum_of(final(map)@)
                == with_branches(
                sum_of(old(map)@),
                controlled_branches(word((x, z)), control, target, out),
                0,
                terms_of(terms@),
            ),
{
    let code: u8 = label_pair(&x, &z, control, target);
    let image: Option<(u8, u8, i8)> = rule(code);
    match image {
        None => pass((x, z), terms, map),
        Some((out_c, out_t, sign)) => {
            let (nx, nz): PauliKey<NW> = set_label(x, z, control, out_c);
            let (nx, nz): PauliKey<NW> = set_label(nx, nz, target, out_t);
            pass_signed((nx, nz), terms, sign, map);
        },
    }
    assert(rule.ensures((code,), image));
}

/// CRX/CRY/CRZ shape: a commuting word passes; any other splits into up to four
/// words, each with a sign and up to two sines and cosines of the parameter.
pub fn evolve_controlled_rotation<S: Scalar, const NW: usize, R: Fn(u8) -> Option<Vec<CRBranch>>>(
    x: [u64; NW],
    z: [u64; NW],
    terms: Vec<CoeffTerm<S>>,
    control: u32,
    target: u32,
    param: i64,
    rule: R,
    map: &mut PauliMap<S, NW>,
)
    requires
        control < 64 * NW,
        target < 64 * NW,
        rule.requires((pair_code(word((x, z)), control, target),)),
    ensures
        exists|out: Option<Vec<CRBranch>>| #[trigger]
            rule.ensures((pair_code(word((x, z)), control, target),), out) && sum_of(final(map)@)
                == with_branches(
                sum_of(old(map)@),
                controlled_rotation_branches(word((x, z)), control, target, branches_view(out)),
                param as u32,
                terms_of(terms@),
            ),
{
    let code: u8 = label_pair(&x, &z, control, target);
    let p: u32 = #[verifier::truncate] (param as u32);
    let image: Option<Vec<CRBranch>> = rule(code);
    assert(rule.ensures((code,), image));
    let ghost bs: Seq<Branch> = controlled_rotation_branches(
        word((x, z)),
        control,
        target,
        branches_view(image),
    );
    match &image {
        None => {
            proof {
                lemma_param_is_idle(sum_of(map@), bs, p, 0, terms_of(terms@));
            }
            pass((x, z), terms, map);
        },
        Some(list) => {
            let mut i: usize = 0;
            assert(bs.take(0) =~= Seq::<Branch>::empty());
            while i < list.len()
                invariant
                    control < 64 * NW,
                    target < 64 * NW,
                    i <= list@.len(),
                    bs == controlled_rotation_branches(word((x, z)), control, target, Some(list@)),
                    sum_of(map@) == with_branches(
                        sum_of(old(map)@),
                        bs.take(i as int),
                        p,
                        terms_of(terms@),
                    ),
                decreases list@.len() - i,
            {
                let (out_c, out_t, coeff, n_sin, n_cos): CRBranch = list[i];
                let (nx, nz): PauliKey<NW> = set_label(x, z, control, out_c);
                let (nx, nz): PauliKey<NW> = set_label(nx, nz, target, out_t);
                let new_terms: Vec<CoeffTerm<S>> = grow_terms(
                    &terms,
                    &Factor::Sign(coeff),
                    p,
                    n_sin,
                    n_cos,
                );
                proof {
                    assert(bs[i as int] == controlled_rotation_branch(
                        word((x, z)),
                        control,
                        target,
                        list@[i as int],
                    ));
                    lemma_grown_branch(new_terms@, terms@, bs[i as int], p);
                    lemma_with_push(
                        sum_of(old(map)@),
                        bs.take(i as int),
                        bs[i as int],
                        p,
                        terms_of(terms@),
                    );
                    assert(bs.take(i as int).push(bs[i as int]) =~= bs.take(i + 1));
                }
                insert_or_extend(map, (nx, nz), new_terms);
                i += 1;
            }
            assert(bs.take(list@.len() as int) =~= bs);
        },
    }
}

/// One gate on one word: each branch of the word's terms is added to the map.
#[verifier::rlimit(50)]
pub fn evolve_one_gate<S: Scalar, const NW: usize>(
    gate: &GateSpec<NW>,
    x: [u64; NW],
    z: [u64; NW],
    terms: Vec<CoeffTerm<S>>,
    map: &mut PauliMap<S, NW>,
)
    requires
        can_act(gate.gate(), 64 * NW),
    ensures
        sum_of(final(map)@) == with_branches(
            sum_of(old(map)@),
            branches(gate.gate(), word((x, z))),
            param_index(gate.gate()),
            terms_of(terms@),
        ),
{
    let ghost g: Gate = gate.gate();
    let ghost bs: Seq<Branch> = branches(g, word((x, z)));
    let wire0: u32 = gate.wire0;
    let wire1: u32 = #[verifier::truncate] (gate.wire1 as u32);
    let param: i64 = gate.param;
    proof {
        if g.kind >= rules::H && g.kind <= rules::CZ {
            lemma_param_is_idle(sum_of(map@), bs, param_index(g), 0, terms_of(terms@));
        }
    }
    match gate.kind {
        rules::RX => evolve_rotation(x, z, terms, wire0, param, rules::rx_rule, map),
        rules::RY => evolve_rotation(x, z, terms, wire0, param, rules::ry_rule, map),
        rules::RZ => evolve_rotation(x, z, terms, wire0, param, rules::rz_rule, map),
        rules::H => evolve_clifford1q(x, z, terms, wire0, rules::h_rule, map),
        rules::S => evolve_clifford1q(x, z, terms, wire0, rules::s_rule, map),
        rules::SX => evolve_clifford1q(x, z, terms, wire0, rules::sx_rule, map),
        rules::T => evolve_t(x, z, terms, wire0, map),
        rules::SWAP => evolve_swap(x, z, terms, wire0, wire1, map),
        rules::CNOT => evolve_controlled(x, z, terms, wire0, wire1, rules::cnot_rule, map),
        rules::CY => evolve_controlled(x, z, terms, wire0, wire1, rules::cy_rule, map),
        rules::CZ => evolve_controlled(x, z, terms, wire0, wire1, rules::cz_rule, map),
        rules::CRX => evolve_controlled_rotation(
            x,
            z,
            terms,
            wire0,
            wire1,
            param,
            rules::crx_rule,
            map,
        ),
        rules::CRY => evolve_controlled_rotation(
            x,
            z,
            terms,
            wire0,
            wire1,
            param,
            rules::cry_rule,
            map,
        ),
        _ => evolve_controlled_rotation(
            x,
            z,
            terms,
            wire0,
            wire1,
            param,
            rules::crz_rule,
            map,
        ),
    }
}

} // verus!
