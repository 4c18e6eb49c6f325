use glimpse::dpf::DPFKey;
use glimpse::emb_cnt::{EmbCnt, DIM};
use glimpse::field::FE;
use glimpse::prg::PrgSeed;
use glimpse::{bits_to_bitstring, string_to_bits, Group};

#[test]
fn eval_non_incr_roundtrip() {
    let (k0, k1) = DPFKey::<(EmbCnt, FE)>::gen_from_str("101");

    let recon = |path: &[bool]| -> (EmbCnt, FE) {
        let mut a = k0.eval_non_incr(path);
        let b = k1.eval_non_incr(path);
        <(EmbCnt, FE) as Group>::add(&mut a, &b);
        Group::reduce(&mut a.0);
        Group::reduce(&mut a.1);
        a
    };

    // Target path "101": value == T::one() = (count 1, embedding [1; DIM], MAC 1).
    let on = recon(&string_to_bits("101"));
    assert_eq!(on.0.count.value(), 1, "target count");
    assert_eq!(on.1.value(), 1, "target MAC");
    assert_eq!(on.0.embedding.len(), DIM);
    assert!(on.0.embedding.iter().all(|&x| x == 1), "target embedding");

    // Off-path "100": reconstructs to zero in count, MAC, and embedding.
    let off = recon(&string_to_bits("100"));
    assert_eq!(off.0.count.value(), 0, "off-path count");
    assert_eq!(off.1.value(), 0, "off-path MAC");
    assert!(off.0.embedding.iter().all(|&x| x == 0), "off-path embedding");
}

#[test]
fn no_aux_matches_full() {
    let (k0, _k1) = DPFKey::<(EmbCnt, FE)>::gen_from_str("1101");
    let init = k0.eval_init();
    let bs = "1".to_string();
    let (s_full, w_full) = k0.eval_bit(&init, true, &bs);
    let (s_na, w_na) = k0.eval_bit_no_aux(&init, true, &bs);

    assert_eq!(s_full.seed.key, s_na.seed.key, "seed");
    assert_eq!(s_full.bit, s_na.bit, "bit");
    assert_eq!(s_full.proof, s_na.proof, "proof");
    assert_eq!(w_full.0.count.value(), w_na.0.count.value(), "count");
    assert_eq!(w_full.1.value(), w_na.1.value(), "MAC");
    assert!(w_na.0.embedding.is_empty(), "no_aux embedding empty");
    assert!(!w_full.0.embedding.is_empty(), "full embedding present");
}

/// All paths of `n` directions.
fn all_paths(n: usize) -> Vec<Vec<bool>> {
    (0..1usize << n).map(|x| (0..n).map(|i| x >> i & 1 == 1).collect()).collect()
}

#[test]
fn shares_add_up_at_every_prefix() {
    let alpha = vec![true, false, true];
    let values = vec![11u64, 22, 33];
    let (k0, k1) = DPFKey::gen(&alpha, &values);
    assert_eq!(k0.domain_size(), 3);
    for n in 1..4 {
        for path in all_paths(n) {
            let sum = k0.eval_non_incr(&path).wrapping_add(k1.eval_non_incr(&path));
            let expected = if path[..] == alpha[..n] { values[n - 1] } else { 0 };
            assert_eq!(sum, expected, "{:?}", path);
        }
    }
}

#[test]
fn bits_differ_on_the_path_and_proofs_agree_everywhere() {
    let alpha = vec![false, true, true, false];
    let (k0, k1) = DPFKey::gen(&alpha, &[5u64, 6, 7, 8]);
    for path in all_paths(4) {
        let mut s0 = k0.eval_init();
        let mut s1 = k1.eval_init();
        assert_ne!(s0.bit, s1.bit);
        for n in 0..4 {
            let name = bits_to_bitstring(&path[..n + 1]);
            s0 = k0.eval_bit(&s0, path[n], &name).0;
            s1 = k1.eval_bit(&s1, path[n], &name).0;
            assert_eq!(s0.bit != s1.bit, path[..n + 1] == alpha[..n + 1]);
            if path[..n + 1] != alpha[..n + 1] {
                assert_eq!(s0.seed.key, s1.seed.key);
            }
            assert_eq!(s0.carried_seed().key, s0.seed.key);
            assert_eq!(s0.control_bit(), s0.bit);
            assert_eq!(*s0.carried_proof(), s0.proof);
            assert_eq!(s0.proof, s1.proof);
        }
    }
}

#[test]
fn a_changed_proof_correction_shows_in_the_proofs() {
    let alpha = vec![false, true];
    let (mut k0, mut k1) = DPFKey::gen(&alpha, &[1u64, 1]);
    k0.cs[0][0] ^= 1;
    k1.cs[0][0] ^= 1;
    let name = "0".to_string();
    let s0 = k0.eval_bit(&k0.eval_init(), false, &name).0;
    let s1 = k1.eval_bit(&k1.eval_init(), false, &name).0;
    // On the path exactly one party applies the correction.
    assert_ne!(s0.proof, s1.proof);
    // Elsewhere both apply it or neither does.
    let name = "1".to_string();
    let s0 = k0.eval_bit(&k0.eval_init(), true, &name).0;
    let s1 = k1.eval_bit(&k1.eval_init(), true, &name).0;
    assert_eq!(s0.proof, s1.proof);
}

#[test]
fn evaluation_along_a_path_collects_every_level() {
    let alpha = vec![true, true, false];
    let (k0, k1) = DPFKey::gen(&alpha, &[100u64, 200, 300]);
    let mut pi_0 = [0u8; 16];
    let mut pi_1 = [0u8; 16];
    let (all_0, last_0) = k0.eval(&alpha, &mut pi_0);
    let (all_1, last_1) = k1.eval(&alpha, &mut pi_1);
    assert_eq!(last_0.wrapping_add(last_1), 300);
    assert_eq!(pi_0, pi_1);
    assert_ne!(pi_0, [0u8; 16]);
    let sums: Vec<u64> =
        all_0.iter().zip(all_1.iter()).map(|(a, b)| a.wrapping_add(*b)).collect();
    assert_eq!(sums[..2].to_vec(), vec![100, 200]);
}

#[test]
fn keys_repeat_for_the_same_seeds() {
    let alpha = vec![true, false];
    let seed_0 = PrgSeed { key: [1; 16] };
    let seed_1 = PrgSeed { key: [2; 16] };
    let (a0, a1) = DPFKey::gen_from_seeds(&alpha, &[3u64, 4], seed_0, seed_1);
    let (b0, _) = DPFKey::gen_from_seeds(&alpha, &[3u64, 4], seed_0, seed_1);
    assert_eq!(a0.root_seed.key, [1; 16]);
    assert_eq!(a1.root_seed.key, [2; 16]);
    assert!(!a0.key_idx && a1.key_idx);
    for i in 0..2 {
        assert_eq!(a0.cor_words[i].seed.key, b0.cor_words[i].seed.key);
        assert_eq!(a0.cor_words[i].bits, b0.cor_words[i].bits);
        assert_eq!(a0.cor_words[i].word, b0.cor_words[i].word);
        assert_eq!(a0.cor_words[i].seed.key, a1.cor_words[i].seed.key);
    }
    assert_eq!(a0.cs, b0.cs);
    assert_eq!(a0.cs, a1.cs);
    let copy = a0.clone();
    assert_eq!(copy.cor_words[1].clone().word, a0.cor_words[1].word);
    assert_eq!(copy.eval_non_incr(&alpha), a0.eval_non_incr(&alpha));
}

#[test]
fn name_and_proof_stay_out_of_the_rest() {
    let (k0, _k1) = DPFKey::gen(&[true, false], &[5u64, 6]);
    let a = k0.eval_init();
    let mut b = k0.eval_init();
    b.proof = [9; 16];
    let (sa, wa) = k0.eval_bit(&a, true, &"1".to_string());
    let (sb, wb) = k0.eval_bit(&b, true, &"1".to_string());
    let (sc, wc) = k0.eval_bit(&b, true, &"another name".to_string());
    assert_eq!(sa.seed.key, sb.seed.key);
    assert_eq!(sa.seed.key, sc.seed.key);
    assert_eq!(sa.bit, sc.bit);
    assert_eq!(wa, wb);
    assert_eq!(wa, wc);
    let difference: Vec<u8> =
        sa.proof.iter().zip(sb.proof.iter()).map(|(x, y)| x ^ y).collect();
    assert_eq!(difference, vec![9u8; 16]);
}
