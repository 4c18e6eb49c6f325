use glimpse::bitvector::BitVector;
use glimpse::collect::{Dealer, GlimpseKeyCollection};
use glimpse::emb_cnt::EmbCnt;
use glimpse::field::MODULUS;
use glimpse::{Group, Share};

#[test]
fn the_receiver_learns_the_chosen_message() {
    for k0 in [0u8, 1, 77] {
        for k1 in [0u8, 1, 200] {
            for c in 0..2u8 {
                let dealer = Dealer::from_parts(k0, k1, c);
                for b in 0..2u8 {
                    let got = GlimpseKeyCollection::one_out_of_two_ot(&dealer, b, &[5, 250]);
                    assert_eq!(got, if b == 0 { 5 } else { 250 });
                }
            }
        }
    }
    for _ in 0..10 {
        assert_eq!(GlimpseKeyCollection::one_out_of_two_ot(&Dealer::new(), 1, &[0, 1]), 1);
        assert_eq!(GlimpseKeyCollection::one_out_of_two_ot(&Dealer::default(), 0, &[0, 1]), 0);
    }
}

#[test]
fn the_or_of_shared_bits() {
    for case in 0..16u8 {
        let bit = |i: u8| case >> i & 1 == 1;
        let (x0, y0, x1, y1) = (bit(0), bit(1), bit(2), bit(3));
        let expected = (x0 != x1) || (y0 != y1);
        let (a, b) = GlimpseKeyCollection::or_gate(x0, y0, x1, y1);
        assert_eq!(a != b, expected);
        for masks in 0..4u8 {
            let (r0, r1) = (masks & 1 == 1, masks & 2 == 2);
            let dealer_0 = Dealer::from_parts(1, 0, 1);
            let dealer_1 = Dealer::from_parts(0, 1, 0);
            let (a, b) = GlimpseKeyCollection::or_gate_with(
                x0, y0, x1, y1, r0, r1, &dealer_0, &dealer_1,
            );
            assert_eq!(a != b, expected);
        }
    }
}

#[test]
fn bits_are_shared() {
    let bits = BitVector::from_bits(&[true, false, true, true, false]);
    let (a, b) = GlimpseKeyCollection::secret_share_bool(&bits, 4);
    let joined: Vec<bool> =
        a.to_bits().iter().zip(b.to_bits().iter()).map(|(x, y)| x != y).collect();
    assert_eq!(joined, vec![true, false, true, true]);
    let (a, b) = GlimpseKeyCollection::share_with_masks(&bits, &[true, true]);
    assert_eq!(a.to_bits(), vec![true, true]);
    assert_eq!(b.to_bits(), vec![false, true]);
}

/// The bits of `x`, least significant first, shared.
fn shared(x: u32, n: usize) -> (BitVector, BitVector) {
    let bits: Vec<bool> = (0..n).map(|i| x >> i & 1 == 1).collect();
    GlimpseKeyCollection::secret_share_bool(&BitVector::from_bits(&bits), n)
}

fn lt(const_r: u32, x: u32, n: usize) -> bool {
    let (a, b) = shared(x, n);
    let (c0, c1) = GlimpseKeyCollection::lt_bits(const_r, &a, &b);
    assert!(c0 < 2 && c1 < 2);
    c0 != c1
}

#[test]
fn shared_numbers_are_compared() {
    for n in 0..6 {
        for x in 0..1 << n {
            for r in 0..1 << n {
                assert_eq!(lt(r, x, n), x < r, "{} < {} on {} bits", x, r, n);
            }
        }
    }
    for (x, r) in [(1, 127), (127, 1), (63, 64), (64, 63), (0, 0), (88, 89), (89, 88)] {
        assert_eq!(lt(r, x, 7), x < r, "{} < {}", x, r);
    }
    for (x, r) in [(1 << 23, (1 << 23) + 1), (5, 1 << 23), ((1 << 24) - 1, (1 << 24) - 1)] {
        assert_eq!(lt(r, x, 24), x < r, "{} < {}", x, r);
    }
    for (x, r) in [(0, 0), (0, 1), (65535, 65535), (65534, 65535), (300, 299), (299, 300)] {
        assert_eq!(lt(r, x, 16), x < r, "{} < {}", x, r);
    }
    for (x, r) in [(0u32, u32::MAX), (u32::MAX, u32::MAX), (1 << 31, (1 << 31) + 1)] {
        assert_eq!(lt(r, x, 32), x < r, "{} < {}", x, r);
    }
    // Only the low bits of the public number count.
    assert!(!lt(0x10003, 5, 16));
    assert!(lt(0x10006, 5, 16));
    assert!(!lt(7, 0, 0));
    assert!(!lt(1, 1, 1));
    assert!(lt(1, 0, 1));
}

#[test]
fn random_numbers_are_shared_twice() {
    for _ in 0..10 {
        let ((r_0, bits_0), (r_1, bits_1)) = GlimpseKeyCollection::get_rand_edabit(16);
        let mut r = r_0;
        r.add(&r_1);
        let number = r.clone().value();
        assert!(number < 64);
        assert!(r.embedding.iter().all(|&x| x == 0));
        let (a, b) = (bits_0.to_bits(), bits_1.to_bits());
        let joined: u64 = (0..16).map(|i| if a[i] != b[i] { 1u64 << i } else { 0 }).sum();
        assert_eq!(joined, number);
    }
    let ((r_0, bits_0), (r_1, bits_1)) = GlimpseKeyCollection::share_edabit(37, 6);
    let mut r = r_0;
    r.add(&r_1);
    assert_eq!(r.value(), 37);
    let (a, b) = (bits_0.to_bits(), bits_1.to_bits());
    let joined: Vec<bool> = (0..6).map(|i| a[i] != b[i]).collect();
    assert_eq!(joined, vec![true, false, true, false, false, true]);
}

#[test]
fn masked_comparison_for_every_mask() {
    for r in 0..64u16 {
        let (e0, e1) = GlimpseKeyCollection::share_edabit(r, 16);
        for (const_r, x) in [(3u32, 4u32), (3, 5), (0, 1), (0, 2), (1000, 1001), (1000, 1002), (65535, 65536), (65534, 65536),
            (65500, 65501), (65500, 65502), (0, 65536)] {
            let (x_0, x_1) = EmbCnt::from_count(x).share();
            let c = GlimpseKeyCollection::lt_const_with(const_r, &x_0, &x_1, &e0, &e1);
            assert_eq!(c, const_r + 1 < x, "mask {}", r);
        }
    }
}

fn keep(threshold: u32, counts: &[u32]) -> Vec<bool> {
    let (v0, v1): (Vec<EmbCnt>, Vec<EmbCnt>) =
        counts.iter().map(|&c| EmbCnt::from_count(c).share()).unzip();
    GlimpseKeyCollection::keep_values(&EmbCnt::from_count(threshold), &v0, &v1)
}

#[test]
fn counts_above_the_threshold_are_kept() {
    assert_eq!(keep(3, &[0, 1, 2, 3, 4, 5, 100]), vec![
        false, false, false, false, true, true, true
    ]);
    assert_eq!(keep(0, &[0, 1]), vec![false, true]);
    assert_eq!(keep(65535, &[0, 1, 65535]), vec![false, false, false]);
    assert_eq!(keep(65534, &[65534, 65535]), vec![false, true]);
    assert_eq!(keep(7, &[65471, 65472, 65500, 65535]), vec![true; 4]);
    assert_eq!(keep(1, &[]), Vec::<bool>::new());
    assert_eq!(keep(70000, &[]), Vec::<bool>::new());
}

#[test]
fn the_shorter_list_limits_the_result() {
    let (a0, a1) = EmbCnt::from_count(9).share();
    let (b0, _b1) = EmbCnt::from_count(9).share();
    let t = EmbCnt::from_count(2);
    assert_eq!(
        GlimpseKeyCollection::keep_values(&t, &[a0.clone(), b0.clone()], &[a1.clone()]),
        vec![true]
    );
    assert_eq!(GlimpseKeyCollection::keep_values_last(&t, &[a0, b0], &[a1]), vec![true]);
}

#[test]
fn counts_that_reach_the_threshold_are_kept_at_the_last_level() {
    let (v0, v1): (Vec<EmbCnt>, Vec<EmbCnt>) =
        [0u32, 2, 3, 4, 70000].iter().map(|&c| EmbCnt::from_count(c).share()).unzip();
    let kept = GlimpseKeyCollection::keep_values_last(&EmbCnt::from_count(3), &v0, &v1);
    assert_eq!(kept, vec![false, false, true, true, true]);
    let mut minus_one = EmbCnt::from_count(1);
    minus_one.negate();
    assert_eq!(minus_one.clone().value(), MODULUS - 1);
    let kept = GlimpseKeyCollection::keep_values_last(
        &EmbCnt::from_count(3),
        &[minus_one],
        &[EmbCnt::zero()],
    );
    assert_eq!(kept, vec![true]);
}
