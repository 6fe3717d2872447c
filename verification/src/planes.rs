//! Planes as numbers: the bit of a qubit is a binary digit, masks are sets of qubits, and
//! planes are as wide as they have to be.

use vstd::arithmetic::power2::pow2;
use vstd::prelude::*;

use crate::batch::MAX_QUBITS;
use crate::bits::{
    all_clear, bit, count_set, either, is_power_of_two, is_word_count, labels,
    lemma_supported_word_counts, lemma_word_count, meets, plane_bits, power_of_two, resized, within,
    word_count,
};
use crate::run_laws::lemma_count_is_cardinality;

verus! {

/// The binary digit of qubit `q` in a list of 64-bit words, the lowest first: that of the
/// value two to the power `q % 64` in the word `q / 64`. Beyond the list it is zero.
pub open spec fn digit(words: Seq<u64>, q: int) -> int {
    if q / 64 < words.len() {
        (words[q / 64] as int / pow2((q % 64) as nat) as int) % 2
    } else {
        0
    }
}

proof fn lemma_bit_is_digit(w: u64, b: int)
    requires
        0 <= b < 64,
    ensures
        bit(w, b) <==> (w as int / pow2(b as nat) as int) % 2 == 1,
{
    let k: u64 = b as u64;
    vstd::bits::lemma_u64_shr_is_div(w, k);
    let h: u64 = w >> k;
    assert(h & 1 == h % 2) by (bit_vector);
}

/// A plane holds the binary digits of its words.
pub proof fn lemma_plane_holds_digits(plane: Seq<u64>, q: int)
    requires
        0 <= q < 64 * plane.len(),
    ensures
        plane_bits(plane).len() == 64 * plane.len(),
        plane_bits(plane)[q] <==> digit(plane, q) == 1,
{
    lemma_bit_is_digit(plane[q / 64], q % 64);
}

/// The label of a qubit is the digit of its x-plane plus twice the digit of its z-plane,
/// where words that are missing count as zero and words beyond the planes do not count.
pub proof fn lemma_label_is_two_digits(x: Seq<u64>, z: Seq<u64>, n: nat, q: int)
    requires
        0 <= q < 64 * n,
    ensures
        labels(resized(x, n), resized(z, n)).len() == 64 * n,
        labels(resized(x, n), resized(z, n))[q] == digit(x, q) + 2 * digit(z, q),
{
    let (a, b): (Seq<u64>, Seq<u64>) = (resized(x, n), resized(z, n));
    lemma_bit_is_digit(a[q / 64], q % 64);
    lemma_bit_is_digit(b[q / 64], q % 64);
    let p: int = pow2((q % 64) as nat) as int;
    vstd::arithmetic::power2::lemma_pow2_pos((q % 64) as nat);
    assert(0int / p == 0) by (nonlinear_arith)
        requires
            p > 0,
    ;
}

/// A plane whose words are given is those words, as many as fit, and zeros.
pub proof fn lemma_resized_words(words: Seq<u64>, n: nat, i: int)
    requires
        0 <= i < n,
    ensures
        resized(words, n).len() == n,
        i < words.len() ==> resized(words, n)[i] == words[i],
        i >= words.len() ==> resized(words, n)[i] == 0,
{
}

/// The qubits of a mask.
pub open spec fn qubits_of(mask: Seq<bool>) -> Set<int> {
    Set::new(|q: int| 0 <= q < mask.len() && mask[q])
}

/// Masks are sets of qubits: they meet where they are not disjoint, the one is within the
/// other where it is a subset, both together are the union, none is set where the set is
/// empty, and the number of set bits is that of its members.
pub proof fn lemma_masks_are_sets(a: Seq<bool>, b: Seq<bool>)
    requires
        a.len() == b.len(),
    ensures
        meets(a, b) <==> !qubits_of(a).disjoint(qubits_of(b)),
        within(a, b) <==> qubits_of(a).subset_of(qubits_of(b)),
        either(a, b).len() == a.len(),
        qubits_of(either(a, b)) == qubits_of(a).union(qubits_of(b)),
        all_clear(a) <==> qubits_of(a) == Set::<int>::empty(),
        qubits_of(a).finite(),
        count_set(a) == qubits_of(a).len(),
{
    let (x, y): (Set<int>, Set<int>) = (qubits_of(a), qubits_of(b));
    if meets(a, b) {
        let q: int = choose|q: int| 0 <= q < a.len() && #[trigger] a[q] && b[q];
        assert(x.contains(q) && y.contains(q));
    }
    if !x.disjoint(y) {
        let q: int = choose|q: int| x.contains(q) && y.contains(q);
        assert(a[q] && b[q]);
    }
    if x.subset_of(y) {
        assert forall|q: int| 0 <= q < a.len() && #[trigger] a[q] implies b[q] by {
            assert(x.contains(q));
            assert(y.contains(q));
        }
    }
    assert(qubits_of(either(a, b)) =~= x.union(y));
    if all_clear(a) {
        assert(x =~= Set::<int>::empty());
    }
    if x == Set::<int>::empty() {
        assert forall|q: int| 0 <= q < a.len() implies !#[trigger] a[q] by {
            assert(!x.contains(q));
        }
    }
    lemma_count_is_cardinality(a);
}

proof fn lemma_powers_are_powers(k: nat)
    ensures
        power_of_two(k) == pow2(k),
    decreases k,
{
    if k == 0 {
        vstd::arithmetic::power2::lemma2_to64();
    } else {
        lemma_powers_are_powers((k - 1) as nat);
        vstd::arithmetic::power2::lemma_pow2_unfold(k);
    }
}

/// The least `k` from `from` on for which two to the power `k` words cover the qubits.
proof fn lemma_least_cover(num_qubits: u32, from: nat) -> (k: nat)
    requires
        from <= 32,
        forall|j: nat| j < from ==> num_qubits > 64 * #[trigger] pow2(j),
    ensures
        num_qubits <= 64 * pow2(k),
        forall|j: nat| j < k ==> num_qubits > 64 * #[trigger] pow2(j),
    decreases 32 - from,
{
    if num_qubits <= 64 * pow2(from) {
        from
    } else {
        vstd::arithmetic::power2::lemma2_to64();
        if from == 32 {
            assert(pow2(32) == 0x100000000);
            from
        } else {
            lemma_least_cover(num_qubits, from + 1)
        }
    }
}

/// The width of the planes is the least power of two whose words cover the qubits: they
/// do, and half as many would not, unless one word is enough. Up to 8192 qubits the width
/// is at most 128 words, and only then.
pub proof fn lemma_width_of_planes(num_qubits: u32) -> (k: nat)
    ensures
        word_count(num_qubits) == pow2(k),
        num_qubits <= 64 * word_count(num_qubits),
        word_count(num_qubits) == 1 || num_qubits > 32 * word_count(num_qubits),
        word_count(num_qubits) <= 128 <==> num_qubits <= 8192,
        num_qubits <= MAX_QUBITS <==> num_qubits <= 8192,
{
    let k: nat = lemma_least_cover(num_qubits, 0);
    let r: nat = pow2(k);
    lemma_powers_are_powers(k);
    assert(is_power_of_two(r));
    assert forall|j: nat| num_qubits <= 64 * #[trigger] power_of_two(j) implies r
        <= power_of_two(j) by {
        lemma_powers_are_powers(j);
        if j < k {
            assert(num_qubits > 64 * pow2(j));
        } else if j > k {
            vstd::arithmetic::power2::lemma_pow2_strictly_increases(k, j);
        }
    }
    assert(is_word_count(num_qubits, r));
    lemma_word_count(num_qubits, r);
    lemma_supported_word_counts(num_qubits, r);
    if k > 0 {
        vstd::arithmetic::power2::lemma_pow2_unfold(k);
        assert(num_qubits > 64 * pow2((k - 1) as nat));
    } else {
        vstd::arithmetic::power2::lemma2_to64();
    }
    k
}

} // verus!
