use pprop::bits::{
    combined_weight, mask_intersects, mask_is_zero, mask_or, mask_or_assign, mask_popcount,
    mask_subset, pauli_label, set_label, set_wire_bit, word_bit, words_needed, words_to_array,
};

#[test]
fn words_needed_is_the_smallest_power_of_two() {
    assert_eq!(words_needed(0), 1);
    assert_eq!(words_needed(1), 1);
    assert_eq!(words_needed(64), 1);
    assert_eq!(words_needed(65), 2);
    assert_eq!(words_needed(128), 2);
    assert_eq!(words_needed(129), 4);
    assert_eq!(words_needed(257), 8);
    assert_eq!(words_needed(8192), 128);
    assert_eq!(words_needed(8193), 256);
    assert_eq!(words_needed(u32::MAX), 1 << 26);
}

#[test]
fn bits_sit_in_words_of_sixty_four() {
    assert_eq!(word_bit(0), (0, 0));
    assert_eq!(word_bit(63), (0, 63));
    assert_eq!(word_bit(64), (1, 0));
    assert_eq!(word_bit(70), (1, 6));
}

#[test]
fn short_lists_are_padded_and_long_ones_cut() {
    assert_eq!(words_to_array::<2>(&[7]), [7, 0]);
    assert_eq!(words_to_array::<2>(&[7, 8]), [7, 8]);
    assert_eq!(words_to_array::<2>(&[7, 8, 9]), [7, 8]);
    assert_eq!(words_to_array::<4>(&[]), [0, 0, 0, 0]);
}

#[test]
fn labels_of_y0_z5_x70() {
    let x: [u64; 2] = [1, 64];
    let z: [u64; 2] = [33, 0];
    assert_eq!(pauli_label(&x, &z, 0), 3);
    assert_eq!(pauli_label(&x, &z, 5), 2);
    assert_eq!(pauli_label(&x, &z, 70), 1);
    for wire in 0..128 {
        if wire != 0 && wire != 5 && wire != 70 {
            assert_eq!(pauli_label(&x, &z, wire), 0);
        }
    }
}

#[test]
fn writing_y_on_qubit_5() {
    let (x, z) = set_label::<1>([0], [0], 5, 3);
    assert_eq!(x, [32]);
    assert_eq!(z, [32]);
    assert_eq!(pauli_label(&x, &z, 5), 3);
}

#[test]
fn a_label_reads_back_and_disturbs_no_other() {
    let x: [u64; 2] = [0xdead_beef, 0x0123_4567];
    let z: [u64; 2] = [0x0f0f_0f0f, 0xffff_0000];
    for wire in 0..128u32 {
        for label in 0..4u8 {
            let (nx, nz) = set_label(x, z, wire, label);
            for q in 0..128u32 {
                if q == wire {
                    assert_eq!(pauli_label(&nx, &nz, q), label);
                } else {
                    assert_eq!(pauli_label(&nx, &nz, q), pauli_label(&x, &z, q));
                }
            }
        }
    }
}

#[test]
fn only_the_two_low_bits_of_a_label_are_written() {
    assert_eq!(set_label::<1>([0], [0], 3, 6), set_label::<1>([0], [0], 3, 2));
}

#[test]
fn wire_bits_accumulate() {
    let mut mask: [u64; 2] = [0, 0];
    set_wire_bit(&mut mask, 3);
    set_wire_bit(&mut mask, 70);
    set_wire_bit(&mut mask, 3);
    assert_eq!(mask, [8, 64]);
}

#[test]
fn masks_intersect_where_they_share_a_bit() {
    assert!(!mask_intersects(&[0b0101], &[0b0010]));
    assert!(mask_intersects(&[0b0101], &[0b0001]));
    assert!(mask_intersects(&[0, 1 << 63], &[5, 1 << 63]));
    assert!(!mask_intersects(&[1, 0], &[0, 1]));
}

#[test]
fn masks_join() {
    assert_eq!(mask_or(&[0b0101, 1], &[0b0010, 4]), [0b0111, 5]);
    let mut a: [u64; 2] = [0b0101, 1];
    mask_or_assign(&mut a, &[0b0010, 4]);
    assert_eq!(a, [0b0111, 5]);
}

#[test]
fn weights_count_qubits() {
    assert_eq!(mask_popcount(&[u64::MAX, 5]), 66);
    assert_eq!(mask_popcount(&[0, 0]), 0);
    assert_eq!(combined_weight(&[1, 64], &[33, 0]), 3);
    assert_eq!(mask_popcount(&[1, 64]), 2);
}

#[test]
fn subsets_and_empty_masks() {
    assert!(mask_subset(&[0b0101], &[0b0111]));
    assert!(!mask_subset(&[0b1101], &[0b0111]));
    assert!(!mask_subset(&[0, 1], &[1, 0]));
    assert!(mask_is_zero(&[0, 0]));
    assert!(!mask_is_zero(&[0, 1 << 40]));
}

#[test]
fn padding_adds_identities() {
    let x = words_to_array::<4>(&[u64::MAX]);
    let z = words_to_array::<4>(&[u64::MAX, 1]);
    assert_eq!(pauli_label(&x, &z, 63), 3);
    assert_eq!(pauli_label(&x, &z, 64), 2);
    for wire in 65..256 {
        assert_eq!(pauli_label(&x, &z, wire), 0);
    }
}
