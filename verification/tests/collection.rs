use glimpse::collect::{GlimpseKeyCollection, HashAlg, Result};
use glimpse::consts::DIM;
use glimpse::dpf::SketchDPFKey;
use glimpse::emb_cnt::EmbCnt;
use glimpse::field::FE;
use glimpse::is_server_zero_in_session;
use glimpse::prg::PrgSeed;
use glimpse::{check_hashes, Group};
use rs_merkle::Hasher;

fn path(s: &str) -> Vec<bool> {
    s.chars().map(|c| c == '1').collect()
}

fn seed() -> PrgSeed {
    PrgSeed { key: [42; 16] }
}

/// Two servers with the keys of clients on the given paths, each of whom counts once.
fn servers(paths: &[&str]) -> (GlimpseKeyCollection, GlimpseKeyCollection) {
    let depth = paths[0].len();
    let mut c0 = GlimpseKeyCollection::new(&seed(), depth);
    let mut c1 = GlimpseKeyCollection::new(&seed(), depth);
    for p in paths {
        let values: Vec<EmbCnt> = (0..depth).map(|_| EmbCnt::one()).collect();
        let [k0, k1] = SketchDPFKey::gen(&path(p), &values);
        c0.add_key(k0);
        c1.add_key(k1);
    }
    c0.tree_init();
    c1.tree_init();
    (c0, c1)
}

fn counts(v0: &[EmbCnt], v1: &[EmbCnt]) -> Vec<u64> {
    v0.iter()
        .zip(v1.iter())
        .map(|(a, b)| {
            let mut sum = a.clone();
            sum.add(b);
            sum.value()
        })
        .collect()
}

fn roots(c: &GlimpseKeyCollection) -> Vec<[u8; 16]> {
    c.get_merkle_roots(0, c.get_mtree_roots_size()).0
}

#[test]
fn roles_in_sessions() {
    assert!(is_server_zero_in_session(0, 0));
    assert!(is_server_zero_in_session(1, 0));
    assert!(is_server_zero_in_session(2, 0));
    assert!(is_server_zero_in_session(0, 1));
    assert!(!is_server_zero_in_session(1, 1));
    assert!(!is_server_zero_in_session(2, 1));
    assert!(!is_server_zero_in_session(3, 0));
    assert!(!is_server_zero_in_session(-1, 0));
    assert!(!is_server_zero_in_session(0, 2));
}

#[test]
fn popular_prefixes_are_found() {
    let (mut c0, mut c1) = servers(&["101", "101", "100", "011", "101", "011"]);
    let none: Vec<usize> = vec![];
    let threshold = EmbCnt::from_count(1);

    let v0 = c0.tree_crawl(1, &none, false);
    let v1 = c1.tree_crawl(1, &none, false);
    assert_eq!(counts(&v0, &v1), vec![2, 4]);
    assert!(check_hashes(&roots(&c0), &roots(&c1)));
    let keep = GlimpseKeyCollection::keep_values(&threshold, &v0, &v1);
    assert_eq!(keep, vec![true, true]);
    c0.tree_prune(&keep);
    c1.tree_prune(&keep);

    let v0 = c0.tree_crawl(1, &none, false);
    let v1 = c1.tree_crawl(1, &none, false);
    assert_eq!(counts(&v0, &v1), vec![0, 2, 4, 0]);
    assert!(check_hashes(&roots(&c0), &roots(&c1)));
    let keep = GlimpseKeyCollection::keep_values(&threshold, &v0, &v1);
    assert_eq!(keep, vec![false, true, true, false]);
    c0.tree_prune(&keep);
    c1.tree_prune(&keep);

    let v0 = c0.tree_crawl_last();
    let v1 = c1.tree_crawl_last();
    assert_eq!(counts(&v0, &v1), vec![0, 2, 1, 3]);
    assert_eq!(c0.get_proofs(0, 6).len(), 6);
    assert_eq!(c0.get_proofs(0, 6), c1.get_proofs(0, 6));

    // Without pruning only the empty node falls away.
    let all = GlimpseKeyCollection::final_values(&c0.final_shares(), &c1.final_shares());
    let found: Vec<(Vec<bool>, u64)> =
        all.iter().map(|r| (r.path.clone(), r.value.clone().value())).collect();
    assert_eq!(found, vec![(path("011"), 2), (path("100"), 1), (path("101"), 3)]);

    let keep = GlimpseKeyCollection::keep_values_last(&EmbCnt::from_count(2), &v0, &v1);
    assert_eq!(keep, vec![false, true, false, true]);
    c0.tree_prune(&keep);
    c1.tree_prune(&keep);
    let found = GlimpseKeyCollection::final_values(&c0.final_shares(), &c1.final_shares());
    assert_eq!(found.len(), 2);
    assert_eq!(found[0].path, path("011"));
    assert_eq!(found[0].value.count.value(), 2);
    assert_eq!(found[0].value.embedding, vec![2u32; DIM]);
    assert_eq!(found[1].path, path("101"));
    assert_eq!(found[1].value.embedding, vec![3u32; DIM]);
}

#[test]
fn a_cheating_client_is_found_and_taken_out() {
    let (mut c0, mut c1) = servers(&["10", "11", "10", "01", "10"]);
    // The third client's proof correction at the first level is wrong: on the client's path only
    // one server applies it.
    c0.keys[2].1.key.cs[0][3] ^= 1;
    c1.keys[2].1.key.cs[0][3] ^= 1;
    let none: Vec<usize> = vec![];
    let v0 = c0.tree_crawl(1, &none, false);
    let v1 = c1.tree_crawl(1, &none, false);
    assert_eq!(counts(&v0, &v1), vec![1, 4]);
    assert_eq!(c0.get_merkle_roots(0, 1).1, vec![0]);
    assert_ne!(roots(&c0), roots(&c1));

    // Five proofs go into a tree of eight leaves, cut into two, four and eight chunks.
    let suspects = vec![0];
    c0.tree_crawl(2, &suspects, false);
    c1.tree_crawl(2, &suspects, false);
    let (r0, i0) = c0.get_merkle_roots(0, 2);
    let (r1, i1) = c1.get_merkle_roots(0, 2);
    assert_eq!(i0, vec![0, 1]);
    assert_eq!(i0, i1);
    assert_ne!(r0[0], r1[0]);
    assert_eq!(r0[1], r1[1]);

    c0.tree_crawl(4, &suspects, false);
    c1.tree_crawl(4, &suspects, false);
    let (r0, i0) = c0.get_merkle_roots(0, 9);
    let (r1, _) = c1.get_merkle_roots(0, 9);
    assert_eq!(i0, vec![0, 1]);
    assert_eq!(r0[0], r1[0]);
    assert_ne!(r0[1], r1[1]);

    let suspects = vec![1];
    c0.tree_crawl(8, &suspects, false);
    c1.tree_crawl(8, &suspects, false);
    let (r0, i0) = c0.get_merkle_roots(0, 9);
    let (r1, _) = c1.get_merkle_roots(0, 9);
    assert_eq!(i0, vec![2, 3]);
    assert_ne!(r0[0], r1[0]);
    assert_eq!(r0[1], r1[1]);

    let suspects = vec![2];
    let v0 = c0.tree_crawl(8, &suspects, true);
    let v1 = c1.tree_crawl(8, &suspects, true);
    assert_eq!(c0.get_merkle_roots(0, 9).1, vec![0]);
    assert_eq!(roots(&c0), roots(&c1));
    assert_eq!(counts(&v0, &v1), vec![1, 3]);
    let live: Vec<bool> = c0.keys.iter().map(|k| k.0).collect();
    assert_eq!(live, vec![true, true, false, true, true]);

    // Places count live clients only: the third one left is the fourth client.
    let suspects = vec![2, 7];
    c0.tree_crawl(1, &suspects, true);
    let live: Vec<bool> = c0.keys.iter().map(|k| k.0).collect();
    assert_eq!(live, vec![true, true, false, false, true]);
}

#[test]
fn the_last_chunk_may_have_no_right_half() {
    let (mut c0, _) = servers(&["0", "1", "0", "1", "0"]);
    let none: Vec<usize> = vec![];
    c0.tree_crawl(1, &none, false);
    // Chunks of two: the third holds one proof, and its right neighbour does not exist.
    let suspects = vec![1, 0];
    c0.tree_crawl(4, &suspects, false);
    assert_eq!(c0.get_mtree_roots_size(), 3);
    assert_eq!(c0.get_merkle_roots(0, 3).1, vec![2, 0, 1]);
}

fn node(left: [u8; 16], right: [u8; 16]) -> [u8; 16] {
    let mut both = left.to_vec();
    both.extend_from_slice(&right);
    HashAlg::hash(&both)
}

/// The leaves at the first level and the root that the crawl computes of them.
fn leaves_and_root(n: usize) -> (Vec<[u8; 16]>, [u8; 16]) {
    let paths = ["01", "10", "11", "00", "01"];
    let (mut c0, _) = servers(&paths[..n]);
    let mut other = c0.clone();
    let none: Vec<usize> = vec![];
    c0.tree_crawl(1, &none, false);
    other.tree_crawl_last();
    (other.get_proofs(0, n), roots(&c0)[0])
}

#[test]
fn roots_of_small_trees() {
    let (l, root) = leaves_and_root(1);
    assert_eq!(root, l[0]);
    let (l, root) = leaves_and_root(2);
    assert_eq!(root, node(l[0], l[1]));
    let (l, root) = leaves_and_root(3);
    assert_eq!(root, node(node(l[0], l[1]), l[2]));
    let (l, root) = leaves_and_root(4);
    assert_eq!(root, node(node(l[0], l[1]), node(l[2], l[3])));
    let (l, root) = leaves_and_root(5);
    assert_eq!(root, node(node(node(l[0], l[1]), node(l[2], l[3])), l[4]));
    assert_eq!(HashAlg::hash(b"x").to_vec(), blake3::hash(b"x").as_bytes()[..16].to_vec());
}

#[test]
fn ranges_of_roots_and_proofs() {
    let (mut c0, _) = servers(&["0", "1", "0", "1"]);
    let none: Vec<usize> = vec![];
    assert_eq!(c0.get_mtree_roots_size(), 0);
    assert_eq!(c0.get_merkle_roots(0, 5), (vec![], vec![]));
    c0.tree_crawl(1, &none, false);
    c0.tree_crawl(4, &vec![1, 0], false);
    let (all, indices) = c0.get_merkle_roots(0, 100);
    assert_eq!(indices, vec![2, 3, 0, 1]);
    assert_eq!(c0.get_merkle_roots(1, 3), (all[1..3].to_vec(), vec![3, 0]));
    assert_eq!(c0.get_merkle_roots(3, 3), (vec![], vec![]));
    assert_eq!(c0.get_merkle_roots(9, 100), (vec![], vec![]));

    let (mut c0, _) = servers(&["0", "1", "0", "1"]);
    c0.tree_crawl_last();
    let proofs = c0.get_proofs(0, 4);
    assert_eq!(proofs.len(), 4);
    assert_eq!(c0.get_proofs(1, 3), proofs[1..3].to_vec());
    assert_eq!(c0.get_proofs(2, 2).len(), 0);
    assert_eq!(c0.get_proofs(3, 1).len(), 0);
    assert_eq!(c0.get_proofs(0, 5).len(), 0);
}

fn sum(a: FE, b: FE) -> FE {
    let mut r = a;
    r.add(&b);
    r
}

fn product(a: FE, b: FE) -> FE {
    let mut r = a;
    r.mul(&b);
    r
}

#[test]
fn honest_clients_pass_the_sketch_and_others_do_not() {
    let depth = 2;
    let mut c0 = GlimpseKeyCollection::new(&seed(), depth);
    let mut c1 = GlimpseKeyCollection::new(&seed(), depth);
    // The second client counts twice at every prefix.
    for (p, times) in [("10", 1), ("01", 2), ("00", 1)] {
        let values = vec![EmbCnt::from_count(times), EmbCnt::from_count(times)];
        let [k0, k1] = SketchDPFKey::gen(&path(p), &values);
        c0.add_key(k0);
        c1.add_key(k1);
    }
    c0.tree_init();
    c1.tree_init();
    let none: Vec<usize> = vec![];
    for _ in 0..depth {
        c0.tree_crawl(1, &none, false);
        c1.tree_crawl(1, &none, false);
        let (s0, e0) = c0.tree_sketch_frontier(0, 3);
        let (s1, e1) = c1.tree_sketch_frontier(0, 3);
        // The vectors hold every client's shares at every node.
        let y0 = c0.get_y_values();
        assert_eq!(e0.len(), 3);
        for i in 0..3 {
            assert_eq!(e0[i].len(), y0.len());
            let mac_key = sum(c0.keys[i].1.mac_key, c1.keys[i].1.mac_key);
            for j in 0..y0.len() {
                assert_eq!(e0[i][j].0.value(), y0[j][i].0.count.value());
                assert_eq!(e0[i][j].1.value(), y0[j][i].1.value());
                let x = sum(e0[i][j].0, e1[i][j].0);
                let kx = sum(e0[i][j].1, e1[i][j].1);
                assert_eq!(kx.value(), product(x, mac_key).value());
            }
        }
        let verdicts: Vec<bool> = (0..3)
            .map(|i| {
                let r_x = sum(s0[i].r_x, s1[i].r_x);
                let r2_x = sum(s0[i].r2_x, s1[i].r2_x);
                let r_kx = sum(s0[i].r_kx, s1[i].r_kx);
                let mac_key = sum(c0.keys[i].1.mac_key, c1.keys[i].1.mac_key);
                assert_eq!(r_kx.value(), product(r_x, mac_key).value());
                r2_x.value() == product(r_x, r_x).value()
            })
            .collect();
        assert_eq!(verdicts, vec![true, false, true]);
        // A part of the clients gets the same sketches.
        let (part, vectors) = c0.tree_sketch_frontier(1, 3);
        assert_eq!(part.len(), 2);
        assert_eq!(vectors.len(), 2);
        assert_eq!(vectors[0][0].0.value(), e0[1][0].0.value());
        assert_eq!(part[0].r_x.value(), s0[1].r_x.value());
        assert_eq!(part[1].r2_x.value(), s0[2].r2_x.value());
    }
    let verdicts = [true, false, true];
    c0.apply_sketch_results(&verdicts);
    c1.apply_sketch_results(&verdicts);
    c0.apply_sketch_results(&[true, true, true]);
    let live: Vec<bool> = c0.keys.iter().map(|k| k.0).collect();
    assert_eq!(live, vec![true, false, true]);
}

#[test]
fn values_of_single_clients_keep_their_counts_only() {
    let (mut c0, mut c1) = servers(&["1", "0"]);
    c0.tree_crawl_last();
    c1.tree_crawl_last();
    let y0 = c0.get_y_values();
    let y1 = c1.get_y_values();
    assert_eq!(y0.len(), 2);
    let expected = [[0, 1], [1, 0]];
    for j in 0..2 {
        assert_eq!(y0[j].len(), 2);
        for i in 0..2 {
            assert_eq!(sum(y0[j][i].0.count, y1[j][i].0.count).value(), expected[j][i]);
            assert!(y0[j][i].0.embedding.is_empty());
            let mac_key = sum(c0.keys[i].1.mac_key, c1.keys[i].1.mac_key);
            let code = product(FE::new(expected[j][i]), mac_key);
            assert_eq!(sum(y0[j][i].1, y1[j][i].1).value(), code.value());
        }
    }
}

#[test]
fn dead_clients_do_not_count() {
    let (mut c0, mut c1) = servers(&["1", "1", "0"]);
    c0.apply_sketch_results(&[true, false, true]);
    let live: Vec<bool> = c0.client_keys().iter().map(|k| k.0).collect();
    assert_eq!(live, vec![true, false, true]);
    c1.apply_sketch_results(&[true, false, true]);
    let v0 = c0.tree_crawl_last();
    let v1 = c1.tree_crawl_last();
    assert_eq!(counts(&v0, &v1), vec![1, 1]);
    assert_eq!(c0.get_proofs(0, 2).len(), 2);
    assert_eq!(c0.get_proofs(0, 3).len(), 0);
}

#[test]
fn pruning_keeps_the_order() {
    let (mut c0, mut c1) = servers(&["00", "01", "10", "11"]);
    let none: Vec<usize> = vec![];
    for c in [&mut c0, &mut c1] {
        c.tree_crawl(1, &none, false);
        c.tree_crawl(1, &none, false);
        c.tree_prune(&[true, false, true, true]);
    }
    let found = GlimpseKeyCollection::final_values(&c0.final_shares(), &c1.final_shares());
    let paths: Vec<Vec<bool>> = found.iter().map(|r| r.path.clone()).collect();
    assert_eq!(paths, vec![path("00"), path("10"), path("11")]);
    // Nodes beyond the flags stay.
    c0.tree_prune(&[false]);
    let shares = c0.final_shares();
    assert_eq!(shares.len(), 2);
    assert_eq!(shares[0].path, path("10"));
}

#[test]
fn values_join_as_far_as_both_servers_go() {
    let make = |p: &str, count: u32| Result { path: path(p), value: EmbCnt::from_count(count) };
    let joined = GlimpseKeyCollection::final_values(
        &[make("0", 3), make("1", 4)],
        &[make("0", 5)],
    );
    assert_eq!(joined.len(), 1);
    assert_eq!(joined[0].path, path("0"));
    assert_eq!(joined[0].value.count.value(), 8);
    let mut minus_three = EmbCnt::from_count(3);
    minus_three.negate();
    let cancelled = GlimpseKeyCollection::final_values(
        &[make("0", 3)],
        &[Result { path: path("0"), value: minus_three }],
    );
    assert_eq!(cancelled.len(), 0);
}
