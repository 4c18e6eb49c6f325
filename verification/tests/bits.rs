use glimpse::bitvector::BitVector;
use glimpse::hash::short_hash;
use glimpse::random::{word_below, word_bit, word_bool, word_bytes};
use glimpse::{
    bits_to_bitstring, bits_to_string, check_hashes, string_to_bits, take, u32_to_bits,
    xor_in_place, xor_three_vecs, xor_vec,
};

#[test]
fn to_bits() {
    let empty: Vec<bool> = vec![];
    assert_eq!(u32_to_bits(0, 7), empty);
    assert_eq!(u32_to_bits(1, 0), vec![false]);
    assert_eq!(u32_to_bits(2, 0), vec![false, false]);
    assert_eq!(u32_to_bits(2, 3), vec![true, true]);
    assert_eq!(u32_to_bits(2, 1), vec![true, false]);
    assert_eq!(u32_to_bits(12, 65535), vec![true; 12]);
}

#[test]
fn to_string() {
    let empty: Vec<bool> = vec![];
    assert_eq!(string_to_bits(""), empty);
    let avec = vec![true, false, false, false, false, true, true, false];
    assert_eq!(string_to_bits("a"), avec);

    let mut aaavec = vec![];
    for _i in 0..3 {
        aaavec.append(&mut avec.clone());
    }
    assert_eq!(string_to_bits("aaa"), aaavec);
}

#[test]
fn to_from_string() {
    let s = "basfsdfwefwf";
    let bitvec = string_to_bits(s);
    let s2 = bits_to_string(&bitvec);

    assert_eq!(bitvec.len(), s.len() * 8);
    assert_eq!(s, s2);
}

#[test]
fn text_beyond_ascii_takes_several_bytes() {
    let bits = string_to_bits("é");
    assert_eq!(bits.len(), 16);
    // The bytes are 0xc3 and 0xa9.
    let low: Vec<bool> = vec![true, true, false, false, false, false, true, true];
    let high: Vec<bool> = vec![true, false, false, true, false, true, false, true];
    assert_eq!(bits[..8].to_vec(), low);
    assert_eq!(bits[8..].to_vec(), high);
}

#[test]
fn ascii_text_is_read_back() {
    for s in ["", "0", "Glimpse 1.0\n", "\u{0}\u{7f}"] {
        assert_eq!(bits_to_string(&string_to_bits(s)), s);
    }
}

#[test]
fn path_is_written_in_zeros_and_ones() {
    assert_eq!(bits_to_bitstring(&[]), "");
    assert_eq!(bits_to_bitstring(&[true, false, true, true]), "1011");
}

#[test]
fn exclusive_or_of_bytes() {
    assert_eq!(xor_vec(&[0xf0, 0x0f], &[0xff, 0xff]), vec![0x0f, 0xf0]);
    assert_eq!(xor_vec(&[1, 2, 3], &[1]), vec![0]);
    assert_eq!(xor_vec(&[1], &[1, 2, 3]), vec![0]);
    assert_eq!(xor_three_vecs(&[1, 2], &[2, 4], &[4, 8]), vec![7, 14]);
    assert_eq!(xor_three_vecs(&[1, 2], &[2, 4], &[4]), vec![7]);

    let mut longer = [1u8, 2, 3];
    xor_in_place(&mut longer, &[1, 1]);
    assert_eq!(longer, [0, 3, 3]);
    let mut shorter = [1u8];
    xor_in_place(&mut shorter, &[3, 5]);
    assert_eq!(shorter, [2]);
}

#[test]
fn exclusive_or_twice_changes_nothing() {
    let a = [1u8, 77, 200, 255];
    let b = [9u8, 13, 200, 0];
    assert_eq!(xor_vec(&xor_vec(&a, &b), &b), a.to_vec());
    assert_eq!(xor_vec(&a, &xor_vec(&a, &b)), b.to_vec());
}

#[test]
fn hashes_are_compared_pairwise() {
    let a = [1u8; 16];
    let mut b = [1u8; 16];
    assert!(check_hashes(&[], &[]));
    assert!(check_hashes(&[a, a], &[b, b]));
    b[15] = 2;
    assert!(!check_hashes(&[a, a], &[a, b]));
    assert!(check_hashes(&[a], &[a, b]));
}

#[test]
fn take_moves_the_last_element_in() {
    let mut v = vec![10, 20, 30, 40];
    assert_eq!(take(&mut v, 1), Some(20));
    assert_eq!(v, vec![10, 40, 30]);
    assert_eq!(take(&mut v, 2), Some(30));
    assert_eq!(v, vec![10, 40]);
    assert_eq!(take(&mut v, 2), None);
    assert_eq!(v, vec![10, 40]);
}

#[test]
fn bit_vectors_hold_what_they_are_given() {
    let bits = vec![true, false, false, true, true];
    assert_eq!(BitVector::from_bits(&bits).to_bits(), bits);
    assert_eq!(BitVector::zeros(3).to_bits(), vec![false; 3]);
    let long: Vec<bool> = (0..40).map(|i| i % 3 == 0).collect();
    assert_eq!(BitVector::from_bits(&long).to_bits(), long);
}

#[test]
fn hash_is_blake3_cut_short() {
    let empty = [
        0xaf, 0x13, 0x49, 0xb9, 0xf5, 0xf9, 0xa1, 0xa6, 0xa0, 0x40, 0x4d, 0xea, 0x36, 0xdc, 0xc9,
        0x49,
    ];
    assert_eq!(short_hash(&[], &[]), empty);
    let full = blake3::hash(b"path and seed");
    assert_eq!(short_hash(b"path ", b"and seed").to_vec(), full.as_bytes()[..16].to_vec());
    assert_ne!(short_hash(b"a", b"b"), short_hash(b"b", b"a"));
}

#[test]
fn words_become_bits_numbers_and_bytes() {
    assert!(word_bool(7) && !word_bool(8));
    assert_eq!(word_bit(7), 1);
    assert_eq!(word_bit(u64::MAX - 1), 0);
    assert_eq!(word_below(64 * 5 + 37, 64), 37);
    assert_eq!(word_below(u64::MAX, 1), 0);
    let bytes = word_bytes(0x0706_0504_0302_0100, 0x0f0e_0d0c_0b0a_0908);
    assert_eq!(bytes.to_vec(), (0..16).collect::<Vec<u8>>());
}
