//! Packed bit planes: `NW` words of 64 bits, one bit per qubit.
//!
//! Qubit `q` sits in word `q / 64` at bit position `q % 64`. A plane is read as
//! the sequence of its `64 * NW` bits, and a pair of planes `(x, z)` as the
//! sequence of the `64 * NW` Pauli labels it holds.

use vstd::prelude::*;

verus! {

/// The `(x, z)` planes of one Pauli word.
pub type PauliKey<const NW: usize> = ([u64; NW], [u64; NW]);

/// Bit `b` of the word `w`.
pub open spec fn bit(w: u64, b: int) -> bool {
    (w >> (b as u64)) & 1 == 1
}

/// The bit of qubit `q` in a plane.
pub open spec fn plane_bit(plane: Seq<u64>, q: int) -> bool {
    bit(plane[q / 64], q % 64)
}

/// The bits of a plane, qubit by qubit.
pub open spec fn plane_bits(plane: Seq<u64>) -> Seq<bool> {
    Seq::new((64 * plane.len()) as nat, |q: int| plane_bit(plane, q))
}

/// The Pauli label with the given x-part and z-part: I = 0, X = 1, Z = 2, Y = 3.
pub open spec fn pack(x_part: bool, z_part: bool) -> u8 {
    if x_part {
        if z_part {
            3
        } else {
            1
        }
    } else if z_part {
        2
    } else {
        0
    }
}

/// Whether a label has an x-part, that is, whether it is X or Y.
pub open spec fn x_part(label: u8) -> bool {
    label == 1 || label == 3
}

/// Whether a label has a z-part, that is, whether it is Z or Y.
pub open spec fn z_part(label: u8) -> bool {
    label == 2 || label == 3
}

/// The labels of the Pauli word whose planes are `x` and `z`.
pub open spec fn labels(x: Seq<u64>, z: Seq<u64>) -> Seq<u8> {
    Seq::new((64 * x.len()) as nat, |q: int| pack(plane_bit(x, q), plane_bit(z, q)))
}

/// The labels of a key.
pub open spec fn word<const NW: usize>(key: PauliKey<NW>) -> Seq<u8> {
    labels(key.0@, key.1@)
}

/// The first `n` words of `words`, padded with zero words where there are fewer.
pub open spec fn resized(words: Seq<u64>, n: nat) -> Seq<u64> {
    Seq::new(n, |i: int| if i < words.len() { words[i] } else { 0 })
}

/// Whether two masks share a set bit.
pub open spec fn meets(a: Seq<bool>, b: Seq<bool>) -> bool {
    exists|q: int| 0 <= q < a.len() && #[trigger] a[q] && b[q]
}

/// Whether every set bit of `a` is a set bit of `b`.
pub open spec fn within(a: Seq<bool>, b: Seq<bool>) -> bool {
    forall|q: int| 0 <= q < a.len() && #[trigger] a[q] ==> b[q]
}

/// Whether no bit of `a` is set.
pub open spec fn all_clear(a: Seq<bool>) -> bool {
    forall|q: int| 0 <= q < a.len() ==> !#[trigger] a[q]
}

/// The bits set in `a` or in `b`.
pub open spec fn either(a: Seq<bool>, b: Seq<bool>) -> Seq<bool> {
    Seq::new(a.len(), |q: int| a[q] || b[q])
}

/// How many bits of `a` are set.
pub open spec fn count_set(a: Seq<bool>) -> nat
    decreases a.len(),
{
    if a.len() == 0 {
        0
    } else {
        count_set(a.drop_last()) + if a.last() {
            1nat
        } else {
            0nat
        }
    }
}

/// The qubits on which a word is not the identity.
pub open spec fn support(w: Seq<u8>) -> Seq<bool> {
    Seq::new(w.len(), |q: int| w[q] != 0)
}

/// The qubits on which a word is X or Y.
pub open spec fn xy_support(w: Seq<u8>) -> Seq<bool> {
    Seq::new(w.len(), |q: int| x_part(w[q]))
}

/// The Pauli weight: on how many qubits a word is not the identity.
pub open spec fn weight(w: Seq<u8>) -> nat {
    count_set(support(w))
}

/// The XY-weight: on how many qubits a word is X or Y.
pub open spec fn xy_weight(w: Seq<u8>) -> nat {
    count_set(xy_support(w))
}

/// Whether a sequence is a Pauli word: all its entries are labels.
pub open spec fn is_word(w: Seq<u8>) -> bool {
    forall|q: int| 0 <= q < w.len() ==> #[trigger] w[q] < 4
}

/// Two to the power `k`.
pub open spec fn power_of_two(k: nat) -> nat
    decreases k,
{
    if k == 0 {
        1
    } else {
        2 * power_of_two((k - 1) as nat)
    }
}

/// Whether `n` is a power of two.
pub open spec fn is_power_of_two(n: nat) -> bool {
    exists|k: nat| n == #[trigger] power_of_two(k)
}

/// Whether `r` is the smallest power of two whose 64-bit words cover `num_qubits`.
pub open spec fn is_word_count(num_qubits: u32, r: nat) -> bool {
    &&& is_power_of_two(r)
    &&& num_qubits <= 64 * r
    &&& forall|k: nat| num_qubits <= 64 * #[trigger] power_of_two(k) ==> r <= power_of_two(k)
}

/// The smallest power of two whose 64-bit words cover `num_qubits`.
pub open spec fn word_count(num_qubits: u32) -> nat {
    choose|r: nat| is_word_count(num_qubits, r)
}

/// The number of set bits among the lowest `n` of `w`.
pub open spec fn ones_below(w: u64, n: nat) -> nat {
    count_set(Seq::new(n, |b: int| bit(w, b)))
}

/// `u64::count_ones`: the number of ones in the binary representation.
pub assume_specification[ u64::count_ones ](w: u64) -> (r: u32)
    ensures
        r == ones_below(w, 64),
;

/// `usize::next_power_of_two`: the smallest power of two that is not below `n`.
/// It overflows, and then panics or wraps, only where that power does not fit.
pub assume_specification[ usize::next_power_of_two ](n: usize) -> (r: usize)
    requires
        n <= 0x8000_0000,
    ensures
        is_power_of_two(r as nat),
        n <= r,
        forall|k: nat| n <= #[trigger] power_of_two(k) ==> r <= power_of_two(k),
;

// ---------------------------------------------------------------------
// Single words
// ---------------------------------------------------------------------

proof fn lemma_bit_or(a: u64, b: u64, i: int)
    requires
        0 <= i < 64,
    ensures
        bit(a | b, i) == (bit(a, i) || bit(b, i)),
{
    let k: u64 = i as u64;
    assert(((a | b) >> k) & 1 == 1 <==> ((a >> k) & 1 == 1 || (b >> k) & 1 == 1)) by (bit_vector);
}

proof fn lemma_bit_and(a: u64, b: u64, i: int)
    requires
        0 <= i < 64,
    ensures
        bit(a & b, i) == (bit(a, i) && bit(b, i)),
{
    let k: u64 = i as u64;
    assert(((a & b) >> k) & 1 == 1 <==> ((a >> k) & 1 == 1 && (b >> k) & 1 == 1)) by (bit_vector);
}

proof fn lemma_bit_xor(a: u64, b: u64, i: int)
    requires
        0 <= i < 64,
    ensures
        bit(a ^ b, i) == (bit(a, i) != bit(b, i)),
{
    let k: u64 = i as u64;
    assert(((a ^ b) >> k) & 1 == 1 <==> (((a >> k) & 1 == 1) != ((b >> k) & 1 == 1)))
        by (bit_vector);
}

proof fn lemma_bit_not(a: u64, i: int)
    requires
        0 <= i < 64,
    ensures
        bit(!a, i) == !bit(a, i),
{
    let k: u64 = i as u64;
    assert(((!a) >> k) & 1 == 1 <==> (a >> k) & 1 != 1) by (bit_vector)
        requires
            k < 64,
    ;
}

proof fn lemma_bit_zero(i: int)
    ensures
        !bit(0, i),
{
    let k: u64 = i as u64;
    assert((0u64 >> k) & 1 != 1) by (bit_vector);
}

/// A word other than zero has a set bit.
proof fn lemma_nonzero_has_bit(a: u64) -> (i: int)
    requires
        a != 0,
    ensures
        0 <= i < 64,
        bit(a, i),
    decreases a,
{
    if a & 1 == 1 {
        assert((a >> 0u64) & 1 == 1) by (bit_vector)
            requires
                a & 1 == 1,
        ;
        0
    } else {
        let h: u64 = a >> 1;
        assert(h != 0 && h < a) by (bit_vector)
            requires
                a & 1 != 1,
                a != 0,
                h == a >> 1,
        ;
        let j: int = lemma_nonzero_has_bit(h);
        let k: u64 = j as u64;
        assert((a >> ((k + 1) as u64)) & 1 == 1 && k < 63) by (bit_vector)
            requires
                k < 64,
                h == a >> 1,
                (h >> k) & 1 == 1,
        ;
        j + 1
    }
}

/// Words with the same bits are the same word.
proof fn lemma_bits_determine_word(a: u64, b: u64)
    requires
        forall|i: int| 0 <= i < 64 ==> bit(a, i) == bit(b, i),
    ensures
        a == b,
{
    if a != b {
        assert(a ^ b != 0) by (bit_vector)
            requires
                a != b,
        ;
        let i: int = lemma_nonzero_has_bit(a ^ b);
        lemma_bit_xor(a, b, i);
    }
}

/// Clearing bit `b` of `a` and then setting it to `v` changes that bit alone.
proof fn lemma_bit_written(a: u64, b: u32, v: u64, i: int)
    requires
        b < 64,
        v <= 1,
        0 <= i < 64,
    ensures
        bit((a & !(1u64 << b)) | (v << b), i) == if i == b {
            v == 1
        } else {
            bit(a, i)
        },
{
    let k: u64 = i as u64;
    if i == b {
        assert((((a & !(1u64 << b)) | (v << b)) >> k) & 1 == 1 <==> v == 1) by (bit_vector)
            requires
                k == b,
                b < 64,
                v <= 1,
        ;
    } else {
        assert((((a & !(1u64 << b)) | (v << b)) >> k) & 1 == 1 <==> (a >> k) & 1 == 1)
            by (bit_vector)
            requires
                k != b,
                k < 64,
                b < 64,
                v <= 1,
        ;
    }
}

proof fn lemma_single_bit(b: u32, i: int)
    requires
        b < 64,
        0 <= i < 64,
    ensures
        bit(1u64 << b, i) == (i == b),
{
    let k: u64 = i as u64;
    assert(((1u64 << b) >> k) & 1 == 1 <==> k == b) by (bit_vector)
        requires
            k < 64,
            b < 64,
    ;
}

// ---------------------------------------------------------------------
// Counting
// ---------------------------------------------------------------------

/// Setting counts add over concatenation.
pub proof fn lemma_count_add(a: Seq<bool>, b: Seq<bool>)
    ensures
        count_set(a + b) == count_set(a) + count_set(b),
    decreases b.len(),
{
    if b.len() == 0 {
        assert(a + b =~= a);
    } else {
        assert((a + b).drop_last() =~= a + b.drop_last());
        lemma_count_add(a, b.drop_last());
    }
}

/// A count is at most the length.
pub proof fn lemma_count_bound(a: Seq<bool>)
    ensures
        count_set(a) <= a.len(),
    decreases a.len(),
{
    if a.len() > 0 {
        lemma_count_bound(a.drop_last());
    }
}

/// A count is zero exactly where no bit is set.
pub proof fn lemma_count_zero(a: Seq<bool>)
    ensures
        count_set(a) == 0 <==> all_clear(a),
    decreases a.len(),
{
    if a.len() > 0 {
        lemma_count_zero(a.drop_last());
        if all_clear(a) {
            assert forall|q: int| 0 <= q < a.drop_last().len() implies !#[trigger] a.drop_last()[q] by {
                assert(!a[q]);
            }
            assert(!a[a.len() - 1]);
        } else {
            let q: int = choose|q: int| 0 <= q < a.len() && #[trigger] a[q];
            if q < a.len() - 1 {
                assert(a.drop_last()[q]);
            }
        }
    }
}

proof fn lemma_plane_bits_push(plane: Seq<u64>, n: int)
    requires
        0 <= n < plane.len(),
    ensures
        plane_bits(plane.take(n + 1)) == plane_bits(plane.take(n)) + Seq::new(
            64,
            |b: int| bit(plane[n], b),
        ),
{
    let left: Seq<bool> = plane_bits(plane.take(n + 1));
    let right: Seq<bool> = plane_bits(plane.take(n)) + Seq::new(64, |b: int| bit(plane[n], b));
    assert forall|q: int| 0 <= q < left.len() implies left[q] == right[q] by {
        if q < 64 * n {
            assert(plane.take(n + 1)[q / 64] == plane.take(n)[q / 64]);
        } else {
            assert(q / 64 == n && q % 64 == q - 64 * n);
        }
    }
    assert(left =~= right);
}

/// No bit of a plane of zero words is set.
pub proof fn lemma_zero_plane(plane: Seq<u64>)
    requires
        forall|i: int| 0 <= i < plane.len() ==> #[trigger] plane[i] == 0,
    ensures
        forall|q: int| 0 <= q < 64 * plane.len() ==> !#[trigger] plane_bits(plane)[q],
{
    assert forall|q: int| 0 <= q < 64 * plane.len() implies !#[trigger] plane_bits(plane)[q] by {
        assert(plane[q / 64] == 0);
        lemma_bit_zero(q % 64);
    }
}

/// The x-plane of a word holds its XY-support.
pub proof fn lemma_xy_support_is_x_plane<const NW: usize>(key: PauliKey<NW>)
    ensures
        xy_support(word(key)) == plane_bits(key.0@),
{
    assert(xy_support(word(key)) =~= plane_bits(key.0@));
}

/// The support of a word is the union of its planes.
pub proof fn lemma_support_is_union<const NW: usize>(key: PauliKey<NW>)
    ensures
        support(word(key)) == either(plane_bits(key.0@), plane_bits(key.1@)),
{
    assert(support(word(key)) =~= either(plane_bits(key.0@), plane_bits(key.1@)));
}

/// Keys with the same labels are the same key.
pub proof fn lemma_word_injective<const NW: usize>(a: PauliKey<NW>, b: PauliKey<NW>)
    requires
        word(a) == word(b),
    ensures
        a == b,
{
    assert forall|w: int| 0 <= w < NW implies a.0@[w] == b.0@[w] && a.1@[w] == b.1@[w] by {
        assert forall|i: int| 0 <= i < 64 implies bit(a.0@[w], i) == bit(b.0@[w], i) && bit(
            a.1@[w],
            i,
        ) == bit(b.1@[w], i) by {
            let q: int = 64 * w + i;
            assert(q / 64 == w && q % 64 == i);
            assert(a.0@.len() == NW && b.0@.len() == NW && 0 <= q < 64 * NW);
            assert(word(a)[q] == pack(plane_bit(a.0@, q), plane_bit(a.1@, q)));
            assert(word(b)[q] == pack(plane_bit(b.0@, q), plane_bit(b.1@, q)));
        }
        lemma_bits_determine_word(a.0@[w], b.0@[w]);
        lemma_bits_determine_word(a.1@[w], b.1@[w]);
    }
    assert(a.0 =~= b.0);
    assert(a.1 =~= b.1);
}

/// A label that is written reads back, and no other qubit is disturbed.
pub proof fn lemma_label_reads_back<const NW: usize>(
    before: PauliKey<NW>,
    after: PauliKey<NW>,
    wire: u32,
    label: u8,
)
    requires
        wire < 64 * NW,
        label < 4,
        word(after) == word(before).update(wire as int, label % 4),
    ensures
        word(after)[wire as int] == label,
        forall|q: int| 0 <= q < 64 * NW && q != wire ==> #[trigger] word(after)[q] == word(before)[q],
{
    assert(before.0@.len() == NW);
}

/// On the qubits that padding adds, a word is the identity.
pub proof fn lemma_padding_is_identity(x: Seq<u64>, z: Seq<u64>, n: nat, q: int)
    requires
        64 * x.len() <= q < 64 * n,
        64 * z.len() <= q,
    ensures
        labels(resized(x, n), resized(z, n))[q] == 0,
{
    lemma_bit_zero(q % 64);
    assert(resized(x, n)[q / 64] == 0);
    assert(resized(z, n)[q / 64] == 0);
}

proof fn lemma_power_of_two_positive(k: nat)
    ensures
        power_of_two(k) >= 1,
    decreases k,
{
    if k > 0 {
        lemma_power_of_two_positive((k - 1) as nat);
    }
}

/// There is only one smallest power of two.
pub proof fn lemma_word_count(num_qubits: u32, r: nat)
    requires
        is_word_count(num_qubits, r),
    ensures
        word_count(num_qubits) == r,
{
    let other: nat = word_count(num_qubits);
    let j: nat = choose|j: nat| r == #[trigger] power_of_two(j);
    let k: nat = choose|k: nat| other == #[trigger] power_of_two(k);
    assert(num_qubits <= 64 * power_of_two(j) && num_qubits <= 64 * power_of_two(k));
}

/// The powers of two up to 128, and when they are enough.
pub proof fn lemma_supported_word_counts(num_qubits: u32, r: nat)
    requires
        is_word_count(num_qubits, r),
    ensures
        r <= 128 <==> num_qubits <= 8192,
        r <= 128 ==> r == 1 || r == 2 || r == 4 || r == 8 || r == 16 || r == 32 || r == 64 || r
            == 128,
{
    reveal_with_fuel(power_of_two, 9);
    assert(power_of_two(7) == 128);
    let k: nat = choose|k: nat| r == #[trigger] power_of_two(k);
    if k >= 8 {
        lemma_power_of_two_grows(8, k);
    }
}

proof fn lemma_power_of_two_grows(j: nat, k: nat)
    requires
        j <= k,
    ensures
        power_of_two(j) <= power_of_two(k),
    decreases k,
{
    if j < k {
        lemma_power_of_two_grows(j, (k - 1) as nat);
    }
}

// ---------------------------------------------------------------------
// Planes
// ---------------------------------------------------------------------

/// Smallest power-of-two word count whose 64-bit words cover `num_qubits`.
pub fn words_needed(num_qubits: u32) -> (r: usize)
    ensures
        is_word_count(num_qubits, r as nat),
        r == word_count(num_qubits),
{
    let raw: usize = ((num_qubits as u64 + 63) / 64) as usize;
    let at_least_one: usize = if raw == 0 {
        1
    } else {
        raw
    };
    proof {
        assert forall|k: nat| num_qubits <= 64 * #[trigger] power_of_two(k) implies at_least_one
            <= power_of_two(k) by {
            lemma_power_of_two_positive(k);
        }
    }
    let r: usize = at_least_one.next_power_of_two();
    proof {
        lemma_word_count(num_qubits, r as nat);
    }
    r
}

/// The word that holds the bit of `wire`, and the bit's position in it.
pub fn word_bit(wire: u32) -> (r: (usize, u32))
    ensures
        r.0 == wire / 64,
        r.1 == wire % 64,
{
    ((wire / 64) as usize, wire % 64)
}

/// Copies `words` into a plane: zero words fill it up where there are fewer than
/// `NW`, and those beyond `NW` are dropped.
pub fn words_to_array<const NW: usize>(words: &[u64]) -> (r: [u64; NW])
    ensures
        r@ == resized(words@, NW as nat),
{
    let mut arr: [u64; NW] = [0u64; NW];
    let n: usize = if words.len() < NW {
        words.len()
    } else {
        NW
    };
    let mut i: usize = 0;
    while i < n
        invariant
            i <= n <= NW,
            n <= words.len(),
            forall|j: int| 0 <= j < i ==> #[trigger] arr@[j] == words@[j],
            forall|j: int| i <= j < NW ==> #[trigger] arr@[j] == 0,
        decreases n - i,
    {
        arr[i] = words[i];
        i += 1;
    }
    assert(arr@ =~= resized(words@, NW as nat));
    arr
}

/// The Pauli label on `wire`: I = 0, X = 1, Z = 2, Y = 3.
pub fn pauli_label<const NW: usize>(x: &[u64; NW], z: &[u64; NW], wire: u32) -> (r: u8)
    requires
        wire < 64 * NW,
    ensures
        r == word((*x, *z))[wire as int],
        r < 4,
{
    let (w, b): (usize, u32) = word_bit(wire);
    let x_word: u64 = x[w];
    let z_word: u64 = z[w];
    assert(((x_word >> b) & 1) <= 1 && ((z_word >> b) & 1) <= 1) by (bit_vector);
    let x_bit: u8 = ((x_word >> b) & 1) as u8;
    let z_bit: u8 = ((z_word >> b) & 1) as u8;
    assert(x_bit | (z_bit << 1) == x_bit + 2 * z_bit) by (bit_vector)
        requires
            x_bit <= 1,
            z_bit <= 1,
    ;
    x_bit | (z_bit << 1)
}

/// The planes with the two low bits of `label` written on `wire` and every other
/// qubit as it was.
pub fn set_label<const NW: usize>(x: [u64; NW], z: [u64; NW], wire: u32, label: u8) -> (r:
    PauliKey<NW>)
    requires
        wire < 64 * NW,
    ensures
        word(r) == word((x, z)).update(wire as int, label % 4),
{
    let mut x: [u64; NW] = x;
    let mut z: [u64; NW] = z;
    let ghost before: PauliKey<NW> = (x, z);
    let (w, b): (usize, u32) = word_bit(wire);
    let x_word: u64 = x[w];
    let z_word: u64 = z[w];
    let x_bit: u64 = (label & 1) as u64;
    let z_bit: u64 = ((label >> 1) & 1) as u64;
    x[w] = (x_word & !(1u64 << b)) | (x_bit << b);
    z[w] = (z_word & !(1u64 << b)) | (z_bit << b);
    proof {
        assert((label & 1) <= 1 && ((label >> 1) & 1) <= 1) by (bit_vector);
        assert(label % 4 == (label & 1) + 2 * ((label >> 1) & 1)) by (bit_vector);
        let after: PauliKey<NW> = (x, z);
        assert forall|q: int| 0 <= q < 64 * NW implies #[trigger] word(after)[q] == word(
            before,
        ).update(wire as int, label % 4)[q] by {
            if q / 64 == w {
                lemma_bit_written(x_word, b, x_bit, q % 64);
                lemma_bit_written(z_word, b, z_bit, q % 64);
            }
        }
        assert(word(after) =~= word(before).update(wire as int, label % 4));
    }
    (x, z)
}

/// Sets the bit of `wire`.
pub fn set_wire_bit<const NW: usize>(arr: &mut [u64; NW], wire: u32)
    requires
        wire < 64 * NW,
    ensures
        plane_bits(final(arr)@) == plane_bits(old(arr)@).update(wire as int, true),
{
    let (w, b): (usize, u32) = word_bit(wire);
    let before: u64 = arr[w];
    arr[w] = before | (1u64 << b);
    proof {
        assert forall|q: int| 0 <= q < 64 * NW implies #[trigger] plane_bits(arr@)[q]
            == plane_bits(old(arr)@).update(wire as int, true)[q] by {
            if q / 64 == w {
                lemma_bit_or(before, 1u64 << b, q % 64);
                lemma_single_bit(b, q % 64);
            }
        }
        assert(plane_bits(arr@) =~= plane_bits(old(arr)@).update(wire as int, true));
    }
}

/// Whether `a` and `b` share a set bit.
pub fn mask_intersects<const NW: usize>(a: &[u64; NW], b: &[u64; NW]) -> (r: bool)
    ensures
        r == meets(plane_bits(a@), plane_bits(b@)),
{
    let mut i: usize = 0;
    while i < NW
        invariant
            i <= NW,
            forall|q: int| 0 <= q < 64 * i ==> !(plane_bit(a@, q) && #[trigger] plane_bit(b@, q)),
        decreases NW - i,
    {
        let both: u64 = a[i] & b[i];
        if both != 0 {
            proof {
                let k: int = lemma_nonzero_has_bit(both);
                lemma_bit_and(a@[i as int], b@[i as int], k);
                let q: int = 64 * i + k;
                assert(q / 64 == i && q % 64 == k);
                assert(plane_bits(a@)[q] && plane_bits(b@)[q]);
            }
            return true;
        }
        proof {
            assert forall|q: int| 0 <= q < 64 * (i + 1) implies !(plane_bit(a@, q)
                && #[trigger] plane_bit(b@, q)) by {
                if q >= 64 * i {
                    assert(q / 64 == i);
                    lemma_bit_and(a@[i as int], b@[i as int], q % 64);
                    lemma_bit_zero(q % 64);
                }
            }
        }
        i += 1;
    }
    proof {
        assert forall|q: int| 0 <= q < plane_bits(a@).len() && #[trigger] plane_bits(a@)[q]
            implies !plane_bits(b@)[q] by {
            assert(!(plane_bit(a@, q) && plane_bit(b@, q)));
        }
    }
    false
}

/// Sets in `a` every bit that is set in `b`.
pub fn mask_or_assign<const NW: usize>(a: &mut [u64; NW], b: &[u64; NW])
    ensures
        plane_bits(final(a)@) == either(plane_bits(old(a)@), plane_bits(b@)),
{
    let mut i: usize = 0;
    while i < NW
        invariant
            i <= NW,
            forall|j: int| 0 <= j < i ==> #[trigger] a@[j] == (old(a)@[j] | b@[j]),
            forall|j: int| i <= j < NW ==> #[trigger] a@[j] == old(a)@[j],
        decreases NW - i,
    {
        let joined: u64 = a[i] | b[i];
        a[i] = joined;
        i += 1;
    }
    proof {
        lemma_planes_joined(old(a)@, b@, a@);
    }
}

/// The bits that are set in `a` or in `b`.
pub fn mask_or<const NW: usize>(a: &[u64; NW], b: &[u64; NW]) -> (r: [u64; NW])
    ensures
        plane_bits(r@) == either(plane_bits(a@), plane_bits(b@)),
{
    let mut out: [u64; NW] = [0u64; NW];
    let mut i: usize = 0;
    while i < NW
        invariant
            i <= NW,
            forall|j: int| 0 <= j < i ==> #[trigger] out@[j] == (a@[j] | b@[j]),
        decreases NW - i,
    {
        out[i] = a[i] | b[i];
        i += 1;
    }
    proof {
        lemma_planes_joined(a@, b@, out@);
    }
    out
}

proof fn lemma_planes_joined(a: Seq<u64>, b: Seq<u64>, joined: Seq<u64>)
    requires
        a.len() == b.len() == joined.len(),
        forall|j: int| 0 <= j < a.len() ==> #[trigger] joined[j] == (a[j] | b[j]),
    ensures
        plane_bits(joined) == either(plane_bits(a), plane_bits(b)),
{
    assert forall|q: int| 0 <= q < 64 * a.len() implies #[trigger] plane_bits(joined)[q] == either(
        plane_bits(a),
        plane_bits(b),
    )[q] by {
        lemma_bit_or(a[q / 64], b[q / 64], q % 64);
    }
    assert(plane_bits(joined) =~= either(plane_bits(a), plane_bits(b)));
}

/// The number of set bits of `a`.
pub fn mask_popcount<const NW: usize>(a: &[u64; NW]) -> (r: u32)
    requires
        64 * NW <= u32::MAX,
    ensures
        r == count_set(plane_bits(a@)),
{
    let mut total: u32 = 0;
    let mut i: usize = 0;
    assert(plane_bits(a@.take(0)) =~= Seq::<bool>::empty());
    while i < NW
        invariant
            i <= NW,
            64 * NW <= u32::MAX,
            total == count_set(plane_bits(a@.take(i as int))),
        decreases NW - i,
    {
        proof {
            let ones: Seq<bool> = Seq::new(64, |b: int| bit(a@[i as int], b));
            lemma_plane_bits_push(a@, i as int);
            lemma_count_add(plane_bits(a@.take(i as int)), ones);
            lemma_count_bound(plane_bits(a@.take(i + 1)));
        }
        total += a[i].count_ones();
        i += 1;
    }
    assert(a@.take(NW as int) =~= a@);
    total
}

/// The Pauli weight of the word `(x, z)`.
pub fn combined_weight<const NW: usize>(x: &[u64; NW], z: &[u64; NW]) -> (r: u32)
    requires
        64 * NW <= u32::MAX,
    ensures
        r == weight(word((*x, *z))),
{
    let joined: [u64; NW] = mask_or(x, z);
    proof {
        lemma_support_is_union((*x, *z));
    }
    mask_popcount(&joined)
}

/// Whether every set bit of `a` is set in `allowed`.
pub fn mask_subset<const NW: usize>(a: &[u64; NW], allowed: &[u64; NW]) -> (r: bool)
    ensures
        r == within(plane_bits(a@), plane_bits(allowed@)),
{
    let mut i: usize = 0;
    while i < NW
        invariant
            i <= NW,
            forall|q: int| 0 <= q < 64 * i && #[trigger] plane_bit(a@, q) ==> plane_bit(allowed@, q),
        decreases NW - i,
    {
        let outside: u64 = a[i] & !allowed[i];
        if outside != 0 {
            proof {
                let k: int = lemma_nonzero_has_bit(outside);
                lemma_bit_and(a@[i as int], !allowed@[i as int], k);
                lemma_bit_not(allowed@[i as int], k);
                let q: int = 64 * i + k;
                assert(q / 64 == i && q % 64 == k);
                assert(plane_bits(a@)[q] && !plane_bits(allowed@)[q]);
            }
            return false;
        }
        proof {
            assert forall|q: int| 0 <= q < 64 * (i + 1) && #[trigger] plane_bit(a@, q) implies plane_bit(
                allowed@,
                q,
            ) by {
                if q >= 64 * i {
                    assert(q / 64 == i);
                    lemma_bit_and(a@[i as int], !allowed@[i as int], q % 64);
                    lemma_bit_not(allowed@[i as int], q % 64);
                    lemma_bit_zero(q % 64);
                }
            }
        }
        i += 1;
    }
    proof {
        assert forall|q: int| 0 <= q < plane_bits(a@).len() && #[trigger] plane_bits(a@)[q]
            implies plane_bits(allowed@)[q] by {
            assert(plane_bit(a@, q));
        }
    }
    true
}

/// Whether no bit of `a` is set.
pub fn mask_is_zero<const NW: usize>(a: &[u64; NW]) -> (r: bool)
    ensures
        r == all_clear(plane_bits(a@)),
{
    let mut i: usize = 0;
    while i < NW
        invariant
            i <= NW,
            forall|j: int| 0 <= j < i ==> #[trigger] a@[j] == 0,
        decreases NW - i,
    {
        if a[i] != 0 {
            proof {
                let k: int = lemma_nonzero_has_bit(a@[i as int]);
                let q: int = 64 * i + k;
                assert(q / 64 == i && q % 64 == k);
                assert(plane_bits(a@)[q]);
            }
            return false;
        }
        i += 1;
    }
    proof {
        assert forall|q: int| 0 <= q < plane_bits(a@).len() implies !#[trigger] plane_bits(a@)[q] by {
            assert(a@[q / 64] == 0);
            lemma_bit_zero(q % 64);
        }
    }
    true
}

} // verus!
