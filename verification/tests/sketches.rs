use glimpse::dpf::SketchDPFKey;
use glimpse::emb_cnt::EmbCnt;
use glimpse::field::FE;
use glimpse::prg::PrgSeed;
use glimpse::sketch::{SketchOutput, TripleShare};
use glimpse::{Group, Share};

fn sum(a: FE, b: FE) -> FE {
    let mut r = a;
    r.add(&b);
    r
}

fn product(a: FE, b: FE) -> FE {
    let mut r = a;
    r.mul(&b);
    r
}

#[test]
fn triples_multiply() {
    for _ in 0..10 {
        let [t0, t1] = TripleShare::<FE>::new();
        let a = sum(t0.a, t1.a);
        let b = sum(t0.b, t1.b);
        assert_eq!(sum(t0.c, t1.c).value(), product(a, b).value());
    }
}

#[test]
fn keys_authenticate_their_values() {
    let alpha = vec![true, false, true];
    let values = vec![EmbCnt::from_count(1), EmbCnt::one(), EmbCnt::from_count(5)];
    let [k0, k1] = SketchDPFKey::gen(&alpha, &values);
    let mac_key = sum(k0.mac_key, k1.mac_key);
    assert_eq!(sum(k0.mac_key2, k1.mac_key2).value(), product(mac_key, mac_key).value());
    assert_eq!(k0.triples.len(), 9);
    assert_eq!(k1.triples.len(), 9);
    assert_eq!(k0.domain_size(), 3);

    let mut pi_0 = [0u8; 16];
    let mut pi_1 = [0u8; 16];
    let (x0, kx0) = k0.eval(&alpha, &mut pi_0);
    let (x1, kx1) = k1.eval(&alpha, &mut pi_1);
    assert_eq!(sum(x0.count, x1.count).value(), 5);
    assert_eq!(sum(kx0, kx1).value(), product(FE::new(5), mac_key).value());
    assert_eq!(pi_0, pi_1);

    let mut embedding = k0.eval_emb_at_path(&alpha[..2]);
    embedding.add(&k1.eval_emb_at_path(&alpha[..2]));
    assert_eq!(embedding.count.value(), 1);
    assert!(embedding.embedding.iter().all(|&x| x == 1));
    let mut off = k0.eval_emb_at_path(&[true, true]);
    off.add(&k1.eval_emb_at_path(&[true, true]));
    assert_eq!(off.count.value(), 0);
    assert!(off.embedding.iter().all(|&x| x == 0));
}

#[test]
fn one_level_with_and_without_embedding() {
    let [k0, _k1] = SketchDPFKey::gen(&[true, false], &[EmbCnt::one(), EmbCnt::one()]);
    let name = "1".to_string();
    let (s_full, x_full, kx_full) = k0.eval_bit(&k0.eval_init(), true, &name);
    let (s_bare, x_bare, kx_bare) = k0.eval_bit_no_aux(&k0.eval_init(), true, &name);
    assert_eq!(s_full.seed.key, s_bare.seed.key);
    assert_eq!(s_full.proof, s_bare.proof);
    assert_eq!(x_full.count.value(), x_bare.count.value());
    assert_eq!(kx_full.value(), kx_bare.value());
    assert!(!x_full.embedding.is_empty());
    assert!(x_bare.embedding.is_empty());
    let copy = k0.clone();
    let (s_copy, x_copy, _) = copy.eval_bit(&copy.eval_init(), true, &name);
    assert_eq!(s_copy.proof, s_full.proof);
    assert_eq!(x_copy.embedding, x_full.embedding);
}

/// The sum of two sketches of shares.
fn joint(a: &SketchOutput<FE>, b: &SketchOutput<FE>) -> (FE, FE, FE) {
    (sum(a.r_x, b.r_x), sum(a.r2_x, b.r2_x), sum(a.r_kx, b.r_kx))
}

/// Shares a vector and its authentication codes and sketches both shares.
fn sketch_of(xs: &[u64], mac_key: FE) -> (FE, FE, FE) {
    let [k0, k1] = SketchDPFKey::gen(&[], &[]);
    let mut v0: Vec<(FE, FE)> = vec![];
    let mut v1: Vec<(FE, FE)> = vec![];
    for &x in xs {
        let (x0, x1) = FE::new(x).share();
        let (kx0, kx1) = product(FE::new(x), mac_key).share();
        v0.push((x0, kx0));
        v1.push((x1, kx1));
    }
    let seed = PrgSeed { key: [5; 16] };
    let out_0 = k0.sketch_at(&v0, &mut seed.to_rng());
    let out_1 = k1.sketch_at(&v1, &mut seed.to_rng());
    assert_eq!(out_0.rand1.value(), out_1.rand1.value());
    assert_eq!(out_0.rand2.value(), out_1.rand2.value());
    assert_eq!(out_0.rand3.value(), out_1.rand3.value());
    joint(&out_0, &out_1)
}

#[test]
fn sketch_weighs_entries_by_the_stream() {
    let seed = PrgSeed { key: [5; 16] };
    let mut rng = seed.to_rng();
    let rand: Vec<u64> = (0..3).map(|_| FE::draw(&mut rng).value()).collect();
    let w0 = FE::draw(&mut rng);
    let w1 = FE::draw(&mut rng);
    let [k0, _] = SketchDPFKey::gen(&[], &[]);
    let entries = [(FE::new(2), FE::new(7)), (FE::new(3), FE::new(1))];
    let mut used = seed.to_rng();
    let out = k0.sketch_at(&entries, &mut used);
    assert_eq!([out.rand1.value(), out.rand2.value(), out.rand3.value()].to_vec(), rand);
    let r_x = sum(product(FE::new(2), w0), product(FE::new(3), w1));
    let r2_x = sum(
        product(FE::new(2), product(w0, w0)),
        product(FE::new(3), product(w1, w1)),
    );
    let r_kx = sum(product(FE::new(7), w0), w1);
    assert_eq!(out.r_x.value(), r_x.value());
    assert_eq!(out.r2_x.value(), r2_x.value());
    assert_eq!(out.r_kx.value(), r_kx.value());
    // The stream has moved on past the weights.
    assert_eq!(used.next_u64(), rng.next_u64());
}

#[test]
fn unit_vectors_pass_the_check() {
    let mac_key = FE::new(123456789);
    for xs in [[0, 0, 1, 0], [1, 0, 0, 0], [0, 0, 0, 0]] {
        let (r_x, r2_x, r_kx) = sketch_of(&xs, mac_key);
        assert_eq!(r2_x.value(), product(r_x, r_x).value());
        assert_eq!(r_kx.value(), product(r_x, mac_key).value());
    }
}

#[test]
fn other_vectors_fail_the_check() {
    let mac_key = FE::new(123456789);
    for xs in [[0, 0, 2, 0], [1, 1, 0, 0]] {
        let (r_x, r2_x, r_kx) = sketch_of(&xs, mac_key);
        assert_ne!(r2_x.value(), product(r_x, r_x).value());
        assert_eq!(r_kx.value(), product(r_x, mac_key).value());
    }
}

#[test]
fn keys_and_triples_from_given_parts() {
    let [t0, t1] = TripleShare::from_parts(
        FE::new(6),
        FE::new(7),
        FE::new(10),
        FE::new(3),
        FE::new(40),
    );
    assert_eq!((t0.a.value(), t0.b.value(), t0.c.value()), (10, 3, 40));
    assert_eq!(sum(t0.a, t1.a).value(), 6);
    assert_eq!(t1.b.value(), 4);
    assert_eq!(t1.c.value(), 2);

    let seeds = (PrgSeed { key: [1; 16] }, PrgSeed { key: [2; 16] });
    let [k0, k1] = SketchDPFKey::gen_from_parts(
        &[true],
        &[EmbCnt::from_count(4)],
        FE::new(9),
        FE::new(2),
        FE::new(80),
        seeds,
        vec![t0, t0, t0],
        vec![t1, t1, t1],
    );
    assert_eq!((k0.mac_key.value(), k1.mac_key.value()), (2, 7));
    assert_eq!((k0.mac_key2.value(), k1.mac_key2.value()), (80, 1));
    assert_eq!((k0.key.root_seed.key, k1.key.root_seed.key), ([1; 16], [2; 16]));
    assert_eq!(k1.triples[2].c.value(), 2);
    let x0 = k0.key.eval_non_incr(&[true]);
    let x1 = k1.key.eval_non_incr(&[true]);
    assert_eq!(sum(x0.0.count, x1.0.count).value(), 4);
    assert_eq!(sum(x0.1, x1.1).value(), 36);
}
