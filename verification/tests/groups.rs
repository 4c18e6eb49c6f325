use glimpse::consts::DIM;
use glimpse::emb_cnt::EmbCnt;
use glimpse::field::{FE, MODULUS};
use glimpse::prg::{FromRng, PrgSeed};
use glimpse::{Group, Share};

#[test]
fn share() {
    let val = u64::random();
    let (s0, s1) = val.share();
    let mut out = u64::zero();
    out.add(&s0);
    out.add(&s1);
    assert_eq!(out, val);
}

#[test]
fn words_wrap_around() {
    let mut a = u64::MAX;
    a.add(&2);
    assert_eq!(a, 1);
    a.sub(&3);
    assert_eq!(a, u64::MAX - 1);
    a.negate();
    assert_eq!(a, 2);
    let mut zero = u64::zero();
    zero.negate();
    assert_eq!(zero, 0);
    assert_eq!(u64::one(), 1);
    assert_eq!(5u64.value(), 5);
    let (x, y) = u64::share_random();
    let mut sum = x;
    sum.add_lazy(&y);
    sum.reduce();
    assert_eq!(sum, x.wrapping_add(y));
}

#[test]
fn field_arithmetic() {
    assert_eq!(MODULUS, (1u64 << 62) - (1 << 16) + 1);
    let minus_one = FE::new(MODULUS - 1);
    let mut a = minus_one;
    a.add(&FE::new(3));
    assert_eq!(a.value(), 2);
    a.sub(&FE::new(5));
    assert_eq!(a.value(), MODULUS - 3);
    a.negate();
    assert_eq!(a.value(), 3);
    let mut b = minus_one;
    b.mul(&minus_one);
    assert_eq!(b.value(), 1);
    let mut c = FE::new(1 << 40);
    c.mul(&FE::new(1 << 30));
    // 2^70 is 2^8 times 2^62, and 2^62 is 2^16 - 1 in the field.
    assert_eq!(c.value(), 256 * 65535);
    assert_eq!(FE::new(u64::MAX).value(), u64::MAX % MODULUS);
    let mut zero = FE::zero();
    zero.negate();
    assert_eq!(zero.value(), 0);
}

#[test]
fn field_elements_are_drawn_without_bias() {
    assert_eq!(FE::from_u64_unbiased(7).map(|x| x.value()), Some(7));
    assert_eq!(FE::from_u64_unbiased((1 << 63) + 9).map(|x| x.value()), Some(9));
    assert_eq!(FE::from_u64_unbiased(MODULUS - 1).map(|x| x.value()), Some(MODULUS - 1));
    assert!(FE::from_u64_unbiased(MODULUS).is_none());
    assert!(FE::from_u64_unbiased((1 << 62) - 1).is_none());
}

#[test]
fn field_shares_add_up() {
    let x = FE::random();
    let (s0, s1) = x.share();
    let mut sum = s0;
    sum.add(&s1);
    assert_eq!(sum.value(), x.value());
}

#[test]
fn counts_with_embeddings() {
    let one = EmbCnt::one();
    assert_eq!(one.count.value(), 1);
    assert_eq!(one.embedding, vec![1u32; DIM]);
    let mut sum = EmbCnt::from_count(41);
    assert_eq!(sum.embedding, vec![0u32; DIM]);
    sum.add(&one);
    assert_eq!(sum.clone().value(), 42);
    assert_eq!(sum.embedding, vec![1u32; DIM]);
    sum.negate();
    assert_eq!(sum.count.value(), MODULUS - 42);
    assert_eq!(sum.embedding, vec![u32::MAX; DIM]);
    sum.sub(&one);
    assert_eq!(sum.count.value(), MODULUS - 43);
    assert_eq!(sum.embedding, vec![u32::MAX - 1; DIM]);
    sum.clear_aux();
    assert!(sum.embedding.is_empty());
    assert_eq!(sum.value(), MODULUS - 43);
}

#[test]
fn cleared_embeddings_stay_cleared() {
    let mut a = EmbCnt::one();
    a.clear_aux();
    a.add(&EmbCnt::one());
    assert_eq!(a.count.value(), 2);
    assert!(a.embedding.is_empty());
    let mut b = EmbCnt::one();
    b.add(&a);
    assert_eq!(b.count.value(), 3);
    assert_eq!(b.embedding, vec![1u32; DIM]);
}

#[test]
fn count_shares_add_up() {
    let mut x = EmbCnt::from_count(7);
    x.embedding[3] = 99;
    let (mut s0, s1) = x.share();
    s0.add(&s1);
    assert_eq!(s0.count.value(), 7);
    assert_eq!(s0.embedding, x.embedding);
}

#[test]
fn payload_pairs() {
    let mut a = <(EmbCnt, FE) as Group>::one();
    a.add(&(EmbCnt::from_count(4), FE::new(9)));
    assert_eq!(a.0.count.value(), 5);
    assert_eq!(a.1.value(), 10);
    a.sub(&<(EmbCnt, FE) as Group>::one());
    a.negate();
    assert_eq!(a.0.count.value(), MODULUS - 4);
    assert_eq!(a.1.value(), MODULUS - 9);
    a.clear_aux();
    assert!(a.0.embedding.is_empty());
    assert_eq!(a.1.value(), MODULUS - 9);
    assert_eq!(<(EmbCnt, FE) as Group>::one().value(), 0);
}

#[test]
fn streams_repeat_and_differ_by_seed() {
    let seed = PrgSeed { key: [7; 16] };
    let mut a = seed.to_rng();
    let mut b = seed.to_rng();
    let first = a.next_u64();
    assert_eq!(first, b.next_u64());
    assert_eq!(a.next_block(), b.next_block());
    assert_ne!(first, PrgSeed { key: [8; 16] }.to_rng().next_u64());
    let mut x = EmbCnt::zero();
    x.from_rng(&mut a);
    let mut y = EmbCnt::zero();
    y.from_rng_no_aux(&mut b);
    assert_eq!(x.count.value(), y.count.value());
    assert_eq!(x.embedding.len(), DIM);
    assert!(y.embedding.is_empty());
    // Without the embedding the stream stops right behind the count.
    let mut c = seed.to_rng();
    c.next_u64();
    c.next_block();
    FE::draw(&mut c);
    assert_eq!(b.next_u64(), c.next_u64());
    let mut pair = <(EmbCnt, FE) as Group>::zero();
    pair.from_rng_no_aux(&mut b);
    assert_eq!(pair.0.count.value(), FE::draw(&mut c).value());
    assert_eq!(pair.1.value(), FE::draw(&mut c).value());
    assert_eq!(b.next_u64(), c.next_u64());
}

#[test]
fn seeds_expand_and_convert() {
    let seed = PrgSeed { key: [3; 16] };
    let both = seed.expand();
    let left = seed.expand_dir(true, false);
    let right = seed.expand_dir(false, true);
    assert_eq!(both.seeds.0.key, left.seeds.0.key);
    assert_eq!(both.bits.0, left.bits.0);
    assert_eq!(both.seeds.1.key, right.seeds.1.key);
    assert_eq!(both.bits.1, right.bits.1);
    assert_ne!(both.seeds.0.key, both.seeds.1.key);
    let full = seed.convert::<(EmbCnt, FE)>();
    let bare = seed.convert_no_aux::<(EmbCnt, FE)>();
    assert_eq!(full.seed.key, bare.seed.key);
    assert_eq!(full.word.0.count.value(), bare.word.0.count.value());
    assert_eq!(full.word.1.value(), bare.word.1.value());
    assert!(bare.word.0.embedding.is_empty());
    assert_eq!(PrgSeed::zero().key, [0; 16]);
    assert_eq!(seed.xor(&seed).key, [0; 16]);
    assert_ne!(PrgSeed::random().key, PrgSeed::random().key);
}
