use vstd::prelude::*;
use vstd::utf8::encode_utf8;

use crate::bits::{bitstring_view, byte_bits, string_to_bits, xor_vec};
use crate::consts::{SEED_SIZE, XOF_SIZE};
use crate::group::Group;
use crate::hash::{blake3_digest, digest, short_digest, short_hash};
use crate::prg::{child_bit, child_seed, next_seed, payload_stream, xor_view, FromRng, PrgSeed};

pub use crate::sketch::SketchDPFKey;

verus! {

/// What corrects the expansion of a seed at one level.
#[derive(Debug)]
pub struct CorWord<T> {
    pub seed: PrgSeed,
    pub bits: (bool, bool),
    pub word: T,
}

/// One share of a point function on all prefixes of a path.
#[derive(Debug)]
pub struct DPFKey<T> {
    pub key_idx: bool,
    pub root_seed: PrgSeed,
    pub cor_words: Vec<CorWord<T>>,
    pub cs: Vec<[u8; XOF_SIZE]>,
}

/// How far an evaluation has come.
#[derive(Debug)]
pub struct EvalState {
    level: usize,
    pub seed: PrgSeed,
    pub bit: bool,
    pub proof: [u8; XOF_SIZE],
}

/// The model of a `CorWord`.
pub struct CorWordView<V> {
    pub seed: Seq<u8>,
    pub bits: (bool, bool),
    pub word: V,
}

/// The model of a `DPFKey`.
#[verifier::ext_equal]
pub struct KeyView<V> {
    pub key_idx: bool,
    pub root_seed: Seq<u8>,
    pub cor_words: Seq<CorWordView<V>>,
    pub cs: Seq<Seq<u8>>,
}

/// The model of an `EvalState`.
pub struct StateView {
    pub level: nat,
    pub seed: Seq<u8>,
    pub bit: bool,
    pub proof: Seq<u8>,
}

impl<T: View> View for CorWord<T> {
    type V = CorWordView<T::V>;

    open spec fn view(&self) -> CorWordView<T::V> {
        CorWordView { seed: self.seed@, bits: self.bits, word: self.word@ }
    }
}

impl<T: View> View for DPFKey<T> {
    type V = KeyView<T::V>;

    open spec fn view(&self) -> KeyView<T::V> {
        KeyView {
            key_idx: self.key_idx,
            root_seed: self.root_seed@,
            cor_words: self.cor_words@.map_values(|c: CorWord<T>| c@),
            cs: self.cs@.map_values(|c: [u8; XOF_SIZE]| c@),
        }
    }
}

impl View for EvalState {
    type V = StateView;

    closed spec fn view(&self) -> StateView {
        StateView {
            level: self.level as nat,
            seed: self.seed@,
            bit: self.bit,
            proof: self.proof@,
        }
    }
}

impl Clone for EvalState {
    fn clone(&self) -> (r: Self)
        ensures
            r@ == self@,
    {
        EvalState { level: self.level, seed: self.seed, bit: self.bit, proof: self.proof }
    }
}

impl EvalState {
    /// The seed at this node.
    pub fn carried_seed(&self) -> (r: &PrgSeed)
        ensures
            r@ == self@.seed,
    {
        &self.seed
    }

    /// The control bit at this node.
    pub fn control_bit(&self) -> (r: bool)
        ensures
            r == self@.bit,
    {
        self.bit
    }

    /// The proof accumulated on the way.
    pub fn carried_proof(&self) -> (r: &[u8; XOF_SIZE])
        ensures
            r@ == self@.proof,
    {
        &self.proof
    }
}

/// The side of a pair that a direction stands for.
pub open spec fn side<A>(pair: (A, A), dir: bool) -> A {
    if dir {
        pair.1
    } else {
        pair.0
    }
}

/// A child's seed once the correction was applied, which a set control bit calls for.
pub open spec fn corrected_seed(raw: Seq<u8>, bit: bool, correction: Seq<u8>) -> Seq<u8> {
    if bit {
        xor_view(raw, correction)
    } else {
        raw
    }
}

/// A child's control bit once the correction was applied, which a set control bit calls for.
pub open spec fn corrected_bit(raw: bool, bit: bool, correction: bool) -> bool {
    if bit {
        raw != correction
    } else {
        raw
    }
}

/// The seeds and control bits of the two parties at a node on the path.
pub struct GenState {
    pub seeds: (Seq<u8>, Seq<u8>),
    pub bits: (bool, bool),
}

impl GenState {
    /// The state at the root.
    pub open spec fn root(seed_0: Seq<u8>, seed_1: Seq<u8>) -> GenState {
        GenState { seeds: (seed_0, seed_1), bits: (false, true) }
    }

    /// The seed correction for a path that goes on in direction `bit`: it makes the parties' seeds
    /// agree on the other side.
    pub open spec fn cor_seed(self, bit: bool) -> Seq<u8> {
        xor_view(child_seed(self.seeds.0, !bit), child_seed(self.seeds.1, !bit))
    }

    /// The bit corrections for a path that goes on in direction `bit`: they make the parties'
    /// control bits agree on the other side and differ on this one.
    pub open spec fn cor_bits(self, bit: bool) -> (bool, bool) {
        let differ_0 = child_bit(self.seeds.0, false) != child_bit(self.seeds.1, false);
        let differ_1 = child_bit(self.seeds.0, true) != child_bit(self.seeds.1, true);
        (differ_0 == bit, differ_1 != bit)
    }

    /// The corrected seed of party `party` on the side `bit`.
    pub open spec fn kept_seed(self, bit: bool, party: bool) -> Seq<u8> {
        corrected_seed(
            child_seed(side(self.seeds, party), bit),
            side(self.bits, party),
            self.cor_seed(bit),
        )
    }

    /// The corrected control bit of party `party` on the side `bit`.
    pub open spec fn kept_bit(self, bit: bool, party: bool) -> bool {
        corrected_bit(
            child_bit(side(self.seeds, party), bit),
            side(self.bits, party),
            side(self.cor_bits(bit), bit),
        )
    }

    /// The state at the child in direction `bit`.
    pub open spec fn next(self, bit: bool) -> GenState {
        GenState {
            seeds: (next_seed(self.kept_seed(bit, false)), next_seed(self.kept_seed(bit, true))),
            bits: (self.kept_bit(bit, false), self.kept_bit(bit, true)),
        }
    }

    /// The payload correction that makes the parties' payloads on the side `bit` differ by `value`.
    pub open spec fn cor_payload<T: FromRng>(self, bit: bool, value: T::V) -> T::V {
        let drawn_0 = T::drawn(payload_stream(self.kept_seed(bit, false)));
        let drawn_1 = T::drawn(payload_stream(self.kept_seed(bit, true)));
        let word = T::add_view(T::sub_view(value, drawn_0), drawn_1);
        if self.kept_bit(bit, true) {
            T::neg_view(word)
        } else {
            word
        }
    }

    /// The correction word for a path that goes on in direction `bit` with payload `value`.
    pub open spec fn cor_word<T: FromRng>(self, bit: bool, value: T::V) -> CorWordView<T::V> {
        CorWordView {
            seed: self.cor_seed(bit),
            bits: self.cor_bits(bit),
            word: self.cor_payload::<T>(bit, value),
        }
    }
}

/// The bytes that name the node at `path`: its directions written as zeros and ones.
pub open spec fn label(path: Seq<bool>) -> Seq<u8> {
    encode_utf8(bitstring_view(path))
}

/// The state of key generation `n` levels down the path `alpha`.
pub open spec fn gen_state(alpha: Seq<bool>, seed_0: Seq<u8>, seed_1: Seq<u8>, n: nat) -> GenState
    decreases n,
{
    if n == 0 {
        GenState::root(seed_0, seed_1)
    } else {
        gen_state(alpha, seed_0, seed_1, (n - 1) as nat).next(alpha[n - 1])
    }
}

/// The hash of a node's name and a party's seed at it.
pub open spec fn node_hash(name: Seq<u8>, seed: Seq<u8>) -> Seq<u8> {
    short_digest(name + seed)
}

/// The proof correction at level `i`: the two parties' node hashes exclusive-ored.
pub open spec fn proof_correction(
    alpha: Seq<bool>,
    seed_0: Seq<u8>,
    seed_1: Seq<u8>,
    i: nat,
) -> Seq<u8> {
    let name = label(alpha.take((i + 1) as int));
    let seeds = gen_state(alpha, seed_0, seed_1, i + 1).seeds;
    xor_view(node_hash(name, seeds.0), node_hash(name, seeds.1))
}

/// The key of party `party` for the path `alpha` with payload `values[i]` at level `i`, grown from
/// the parties' root seeds.
pub open spec fn gen_view<T: FromRng>(
    alpha: Seq<bool>,
    values: Seq<T::V>,
    seed_0: Seq<u8>,
    seed_1: Seq<u8>,
    party: bool,
) -> KeyView<T::V> {
    KeyView {
        key_idx: party,
        root_seed: side((seed_0, seed_1), party),
        cor_words: Seq::new(
            alpha.len(),
            |i: int|
                gen_state(alpha, seed_0, seed_1, i as nat).cor_word::<T>(alpha[i], values[i]),
        ),
        cs: Seq::new(alpha.len(), |i: int| proof_correction(alpha, seed_0, seed_1, i as nat)),
    }
}

/// Whether two keys were generated together for the path `alpha` with payloads `values`.
pub open spec fn honest_pair<T: FromRng>(
    k0: KeyView<T::V>,
    k1: KeyView<T::V>,
    alpha: Seq<bool>,
    values: Seq<T::V>,
) -> bool {
    &&& k0.root_seed.len() == SEED_SIZE
    &&& k1.root_seed.len() == SEED_SIZE
    &&& k0 == gen_view::<T>(alpha, values, k0.root_seed, k1.root_seed, false)
    &&& k1 == gen_view::<T>(alpha, values, k0.root_seed, k1.root_seed, true)
}

/// The seed of the child in direction `dir` before it is converted.
pub open spec fn eval_seed<V>(k: KeyView<V>, st: StateView, dir: bool) -> Seq<u8> {
    corrected_seed(child_seed(st.seed, dir), st.bit, k.cor_words[st.level as int].seed)
}

/// The control bit of the child in direction `dir`.
pub open spec fn eval_control<V>(k: KeyView<V>, st: StateView, dir: bool) -> bool {
    corrected_bit(
        child_bit(st.seed, dir),
        st.bit,
        side(k.cor_words[st.level as int].bits, dir),
    )
}

/// The payload share at the child in direction `dir`, with or without its auxiliary part.
pub open spec fn eval_word<T: FromRng>(
    k: KeyView<T::V>,
    st: StateView,
    dir: bool,
    aux: bool,
) -> T::V {
    let stream = payload_stream(eval_seed(k, st, dir));
    let drawn = if aux {
        T::drawn(stream)
    } else {
        T::drawn_no_aux(stream)
    };
    let word = if eval_control(k, st, dir) {
        T::add_view(drawn, k.cor_words[st.level as int].word)
    } else {
        drawn
    };
    if k.key_idx {
        T::neg_view(word)
    } else {
        word
    }
}

/// The node hash at the child in direction `dir`, corrected where the control bit is set.
pub open spec fn eval_hash<V>(k: KeyView<V>, st: StateView, dir: bool, name: Seq<u8>) -> Seq<u8> {
    let hash = node_hash(name, next_seed(eval_seed(k, st, dir)));
    if eval_control(k, st, dir) {
        xor_view(k.cs[st.level as int], hash)
    } else {
        hash
    }
}

/// The state at the child in direction `dir`, whose name is `name`.
pub open spec fn eval_state<V>(
    k: KeyView<V>,
    st: StateView,
    dir: bool,
    name: Seq<u8>,
) -> StateView {
    StateView {
        level: st.level + 1,
        seed: next_seed(eval_seed(k, st, dir)),
        bit: eval_control(k, st, dir),
        proof: xor_view(blake3_digest(eval_hash(k, st, dir, name))@, st.proof),
    }
}

/// The state at the root, carrying the proof `proof`.
pub open spec fn root_state<V>(k: KeyView<V>, proof: Seq<u8>) -> StateView {
    StateView { level: 0, seed: k.root_seed, bit: k.key_idx, proof }
}

/// The proof of zero bytes.
pub open spec fn zero_proof() -> Seq<u8> {
    Seq::new(XOF_SIZE as nat, |i: int| 0u8)
}

/// The state at the node at `path`, where the root carries the proof `proof`.
pub open spec fn state_at<V>(k: KeyView<V>, proof: Seq<u8>, path: Seq<bool>) -> StateView
    decreases path.len(),
{
    if path.len() == 0 {
        root_state(k, proof)
    } else {
        eval_state(k, state_at(k, proof, path.drop_last()), path.last(), label(path))
    }
}

/// The payload share at the node at `path`.
pub open spec fn word_at<T: FromRng>(k: KeyView<T::V>, path: Seq<bool>) -> T::V
    recommends
        path.len() > 0,
{
    eval_word::<T>(k, state_at(k, zero_proof(), path.drop_last()), path.last(), true)
}

/// Whether the key has a correction for the level that the state is about to enter.
pub open spec fn in_domain<V>(k: KeyView<V>, st: StateView) -> bool {
    st.level < k.cor_words.len() && st.level < k.cs.len()
}

/// Leaving the auxiliary part undrawn clears it from the payload share and changes nothing else.
pub proof fn lemma_no_aux_word<T: FromRng>(k: KeyView<T::V>, st: StateView, dir: bool)
    ensures
        eval_word::<T>(k, st, dir, false) == T::clear_aux_view(eval_word::<T>(k, st, dir, true)),
{
    let stream = payload_stream(eval_seed(k, st, dir));
    let cor = k.cor_words[st.level as int].word;
    T::lemma_drawn(stream);
    let drawn = T::drawn(stream);
    T::lemma_clear_aux(drawn, cor);
    T::lemma_clear_aux(T::add_view(drawn, cor), cor);
}

/// The proof that the root carries has no influence on the rest of a state.
pub proof fn lemma_state_proof_irrelevant<V>(
    k: KeyView<V>,
    proof_0: Seq<u8>,
    proof_1: Seq<u8>,
    path: Seq<bool>,
)
    ensures
        state_at(k, proof_0, path).level == path.len(),
        state_at(k, proof_0, path).level == state_at(k, proof_1, path).level,
        state_at(k, proof_0, path).seed == state_at(k, proof_1, path).seed,
        state_at(k, proof_0, path).bit == state_at(k, proof_1, path).bit,
    decreases path.len(),
{
    if path.len() > 0 {
        lemma_state_proof_irrelevant(k, proof_0, proof_1, path.drop_last());
    }
}

/// Copies a hash out of a vector of its bytes.
fn to_hash(bytes: &Vec<u8>) -> (r: [u8; XOF_SIZE])
    requires
        bytes@.len() == XOF_SIZE,
    ensures
        r@ == bytes@,
{
    let mut r = [0u8; XOF_SIZE];
    for i in 0..XOF_SIZE
        invariant
            bytes@.len() == XOF_SIZE,
            forall|j: int| 0 <= j < i ==> r@[j] == bytes@[j],
    {
        r[i] = bytes[i];
    }
    assert(r@ =~= bytes@);
    r
}

/// The side of a pair that a direction stands for.
fn get<A: Copy>(pair: &(A, A), dir: bool) -> (r: A)
    ensures
        r == side(*pair, dir),
{
    if dir {
        pair.1
    } else {
        pair.0
    }
}

/// A child's seed once the correction was applied.
fn correct_seed(raw: PrgSeed, bit: bool, correction: &PrgSeed) -> (r: PrgSeed)
    ensures
        r@ == corrected_seed(raw@, bit, correction@),
{
    if bit {
        raw.xor(correction)
    } else {
        raw
    }
}

/// A child's control bit once the correction was applied.
fn correct_bit(raw: bool, bit: bool, correction: bool) -> (r: bool)
    ensures
        r == corrected_bit(raw, bit, correction),
{
    if bit {
        raw != correction
    } else {
        raw
    }
}

/// The state that a pair of control bits and a pair of seeds stand for.
pub open spec fn gen_state_of(bits: (bool, bool), seeds: (PrgSeed, PrgSeed)) -> GenState {
    GenState { seeds: (seeds.0@, seeds.1@), bits }
}

/// Makes the correction word for one level and moves both parties on to the next.
fn gen_cor_word<W: FromRng>(
    bit: bool,
    value: W,
    bits: &mut (bool, bool),
    seeds: &mut (PrgSeed, PrgSeed),
) -> (cw: CorWord<W>)
    ensures
        cw@ == gen_state_of(*old(bits), *old(seeds)).cor_word::<W>(bit, value@),
        gen_state_of(*final(bits), *final(seeds)) == gen_state_of(*old(bits), *old(seeds)).next(
            bit,
        ),
{
    let ghost st = gen_state_of(*bits, *seeds);
    let data_0 = seeds.0.expand();
    let data_1 = seeds.1.expand();
    // Where the path turns left the left side is kept and the right side is lost, and conversely.
    let keep = bit;
    let lose = !keep;
    let cw_seed = get(&data_0.seeds, lose).xor(&get(&data_1.seeds, lose));
    let cw_bits = (
        (data_0.bits.0 != data_1.bits.0) == bit,
        (data_0.bits.1 != data_1.bits.1) != bit,
    );
    let seed_0 = correct_seed(get(&data_0.seeds, keep), bits.0, &cw_seed);
    let seed_1 = correct_seed(get(&data_1.seeds, keep), bits.1, &cw_seed);
    let bit_0 = correct_bit(get(&data_0.bits, keep), bits.0, get(&cw_bits, keep));
    let bit_1 = correct_bit(get(&data_1.bits, keep), bits.1, get(&cw_bits, keep));
    *bits = (bit_0, bit_1);
    let converted_0 = seed_0.convert::<W>();
    let converted_1 = seed_1.convert::<W>();
    let mut word = value;
    word.sub(&converted_0.word);
    word.add(&converted_1.word);
    if bit_1 {
        word.negate();
    }
    *seeds = (converted_0.seed, converted_1.seed);
    assert(seed_0@ == st.kept_seed(bit, false));
    assert(seed_1@ == st.kept_seed(bit, true));
    CorWord { seed: cw_seed, bits: cw_bits, word }
}

impl<T: Group> Clone for CorWord<T> {
    fn clone(&self) -> (r: Self)
        ensures
            r@ == self@,
    {
        CorWord { seed: self.seed, bits: self.bits, word: self.word.duplicate() }
    }
}

impl<T: Group> Clone for DPFKey<T> {
    fn clone(&self) -> (r: Self)
        ensures
            r@ == self@,
    {
        let mut cor_words: Vec<CorWord<T>> = Vec::new();
        for i in 0..self.cor_words.len()
            invariant
                cor_words@.len() == i,
                forall|j: int| 0 <= j < i ==> (#[trigger] cor_words@[j])@ == self.cor_words@[j]@,
        {
            cor_words.push(self.cor_words[i].clone());
        }
        let r = DPFKey {
            key_idx: self.key_idx,
            root_seed: self.root_seed,
            cor_words,
            cs: self.cs.clone(),
        };
        assert(r@ =~= self@);
        r
    }
}

/// An evaluable share of an all-prefix point function.
impl<T: FromRng> DPFKey<T> {
    /// The pair of keys for the path `alpha_bits`, grown from the given root seeds: the payload at
    /// the prefix of length i + 1 is `values[i]`.
    pub fn gen_from_seeds(
        alpha_bits: &[bool],
        values: &[T],
        seed_0: PrgSeed,
        seed_1: PrgSeed,
    ) -> (keys: (DPFKey<T>, DPFKey<T>))
        requires
            alpha_bits@.len() == values@.len(),
        ensures
            keys.0@ == gen_view::<T>(
                alpha_bits@,
                values@.map_values(|v: T| v@),
                seed_0@,
                seed_1@,
                false,
            ),
            keys.1@ == gen_view::<T>(
                alpha_bits@,
                values@.map_values(|v: T| v@),
                seed_0@,
                seed_1@,
                true,
            ),
    {
        let ghost alpha = alpha_bits@;
        let ghost vals = values@.map_values(|v: T| v@);
        let mut seeds = (seed_0, seed_1);
        let mut bits = (false, true);
        let mut cor_words: Vec<CorWord<T>> = Vec::new();
        let mut cs: Vec<[u8; XOF_SIZE]> = Vec::new();
        let mut bit_str = String::new();
        assert(bit_str@ =~= bitstring_view(alpha.take(0)));
        for i in 0..alpha_bits.len()
            invariant
                alpha == alpha_bits@,
                vals == values@.map_values(|v: T| v@),
                alpha_bits@.len() == values@.len(),
                bit_str@ == bitstring_view(alpha.take(i as int)),
                gen_state_of(bits, seeds) == gen_state(alpha, seed_0@, seed_1@, i as nat),
                cor_words@.len() == i,
                cs@.len() == i,
                forall|j: int|
                    0 <= j < i ==> (#[trigger] cor_words@[j])@ == gen_state(
                        alpha,
                        seed_0@,
                        seed_1@,
                        j as nat,
                    ).cor_word::<T>(alpha[j], vals[j]),
                forall|j: int|
                    0 <= j < i ==> (#[trigger] cs@[j])@ == proof_correction(
                        alpha,
                        seed_0@,
                        seed_1@,
                        j as nat,
                    ),
        {
            let bit = alpha_bits[i];
            bit_str.push(
                if bit {
                    '1'
                } else {
                    '0'
                },
            );
            assert(bit_str@ =~= bitstring_view(alpha.take(i + 1)));
            let cw = gen_cor_word::<T>(bit, values[i].duplicate(), &mut bits, &mut seeds);
            cor_words.push(cw);
            let name = bit_str.as_str().as_bytes();
            let pi_0 = short_hash(name, &seeds.0.key);
            let pi_1 = short_hash(name, &seeds.1.key);
            let c = to_hash(&xor_vec(&pi_0, &pi_1));
            assert(c@ == proof_correction(alpha, seed_0@, seed_1@, i as nat));
            cs.push(c);
        }
        let key_0 = DPFKey { key_idx: false, root_seed: seed_0, cor_words, cs };
        assert(key_0@ =~= gen_view::<T>(alpha, vals, seed_0@, seed_1@, false));
        let mut key_1 = key_0.clone();
        key_1.key_idx = true;
        key_1.root_seed = seed_1;
        assert(key_1@ =~= gen_view::<T>(alpha, vals, seed_0@, seed_1@, true));
        (key_0, key_1)
    }

    /// The pair of keys for the path `alpha_bits`, grown from random root seeds: the payload at the
    /// prefix of length i + 1 is `values[i]`.
    pub fn gen(alpha_bits: &[bool], values: &[T]) -> (keys: (DPFKey<T>, DPFKey<T>))
        requires
            alpha_bits@.len() == values@.len(),
        ensures
            honest_pair::<T>(
                keys.0@,
                keys.1@,
                alpha_bits@,
                values@.map_values(|v: T| v@),
            ),
    {
        let seed_0 = PrgSeed::random();
        let seed_1 = PrgSeed::random();
        Self::gen_from_seeds(alpha_bits, values, seed_0, seed_1)
    }

    /// The pair of keys for the bits of `s`, with the payload one at every prefix.
    pub fn gen_from_str(s: &str) -> (keys: (Self, Self))
        ensures
            honest_pair::<T>(
                keys.0@,
                keys.1@,
                byte_bits(encode_utf8(s@)),
                Seq::new(8 * encode_utf8(s@).len(), |i: int| T::one_view()),
            ),
    {
        let bits = string_to_bits(s);
        let mut values: Vec<T> = Vec::new();
        for i in 0..bits.len()
            invariant
                values@.len() == i,
                forall|j: int| 0 <= j < i ==> (#[trigger] values@[j])@ == T::one_view(),
        {
            values.push(T::one());
        }
        assert(values@.map_values(|v: T| v@) =~= Seq::new(bits@.len(), |i: int| T::one_view()));
        Self::gen(&bits, &values)
    }

    /// Evaluates one level down in direction `dir`, carrying the proof along. `bit_str` names the
    /// child.
    pub fn eval_bit(&self, state: &EvalState, dir: bool, bit_str: &String) -> (r: (EvalState, T))
        requires
            in_domain(self@, state@),
        ensures
            r.0@ == eval_state(self@, state@, dir, encode_utf8(bit_str@)),
            r.1@ == eval_word::<T>(self@, state@, dir, true),
    {
        self.eval_bit_inner(state, dir, bit_str, true)
    }

    /// Evaluates one level down like `eval_bit`, with the same state and proof, but leaves the
    /// auxiliary part of the payload undrawn.
    pub fn eval_bit_no_aux(&self, state: &EvalState, dir: bool, bit_str: &String) -> (r: (
        EvalState,
        T,
    ))
        requires
            in_domain(self@, state@),
        ensures
            r.0@ == eval_state(self@, state@, dir, encode_utf8(bit_str@)),
            r.1@ == T::clear_aux_view(eval_word::<T>(self@, state@, dir, true)),
    {
        proof {
            lemma_no_aux_word::<T>(self@, state@, dir);
        }
        self.eval_bit_inner(state, dir, bit_str, false)
    }

    fn eval_bit_inner(&self, state: &EvalState, dir: bool, bit_str: &String, aux: bool) -> (r: (
        EvalState,
        T,
    ))
        requires
            in_domain(self@, state@),
        ensures
            r.0@ == eval_state(self@, state@, dir, encode_utf8(bit_str@)),
            r.1@ == eval_word::<T>(self@, state@, dir, aux),
    {
        let level = state.level;
        let levels = self.domain_size();
        assert(level < levels);
        let cor = &self.cor_words[level];
        assert(cor@ == self@.cor_words[level as int]);
        let tau = state.seed.expand_dir(!dir, dir);
        let seed = correct_seed(get(&tau.seeds, dir), state.bit, &cor.seed);
        let new_bit = correct_bit(get(&tau.bits, dir), state.bit, get(&cor.bits, dir));
        // The next seed is drawn before the payload either way, so the proof, which hashes that
        // seed alone, does not depend on `aux`.
        let converted = if aux {
            seed.convert::<T>()
        } else {
            seed.convert_no_aux::<T>()
        };
        let new_seed = converted.seed;
        let mut word = converted.word;
        if new_bit {
            word.add(&cor.word);
        }
        if self.key_idx {
            word.negate();
        }
        let pi_prime = short_hash(bit_str.as_str().as_bytes(), &new_seed.key);
        let h = if !new_bit {
            pi_prime
        } else {
            to_hash(&xor_vec(&self.cs[level], &pi_prime))
        };
        let nothing: Vec<u8> = Vec::new();
        let h2 = digest(&h, &nothing);
        assert(h@ + nothing@ =~= h@);
        let proof = to_hash(&xor_vec(&h2, &state.proof));
        (EvalState { level: level + 1, seed: new_seed, bit: new_bit, proof }, word)
    }

    /// The state at the root.
    pub fn eval_init(&self) -> (r: EvalState)
        ensures
            r@ == root_state(self@, zero_proof()),
    {
        let r = EvalState {
            level: 0,
            seed: self.root_seed,
            bit: self.key_idx,
            proof: [0u8; XOF_SIZE],
        };
        assert(r@.proof =~= zero_proof());
        r
    }

    /// The payload share at the node at `idx`. The descent leaves the auxiliary parts undrawn; the
    /// full payload is drawn at the last node only.
    pub fn eval_non_incr(&self, idx: &[bool]) -> (word: T)
        requires
            0 < idx@.len() <= self@.cor_words.len(),
            idx@.len() <= self@.cs.len(),
        ensures
            word@ == word_at::<T>(self@, idx@),
    {
        let mut state = self.eval_init();
        let mut bit_str = String::new();
        let last = idx.len() - 1;
        assert(bit_str@ =~= bitstring_view(idx@.take(0)));
        for i in 0..last
            invariant
                last == idx@.len() - 1,
                idx@.len() <= self@.cor_words.len(),
                idx@.len() <= self@.cs.len(),
                bit_str@ == bitstring_view(idx@.take(i as int)),
                state@ == state_at(self@, zero_proof(), idx@.take(i as int)),
                state@.level == i,
        {
            let b = idx[i];
            bit_str.push(
                if b {
                    '1'
                } else {
                    '0'
                },
            );
            assert(bit_str@ =~= bitstring_view(idx@.take(i + 1)));
            assert(idx@.take(i + 1).drop_last() =~= idx@.take(i as int));
            let (next, _w) = self.eval_bit_no_aux(&state, b, &bit_str);
            state = next;
        }
        let b = idx[last];
        bit_str.push(
            if b {
                '1'
            } else {
                '0'
            },
        );
        assert(idx@.drop_last() =~= idx@.take(last as int));
        let (_st, word) = self.eval_bit(&state, b, &bit_str);
        word
    }

    /// Evaluates along `idx`, threading the proof through `pi`: returns the payload shares at the
    /// inner nodes and the one at the last node. The proof that is handed back is the one at the
    /// last inner node.
    pub fn eval(&self, idx: &[bool], pi: &mut [u8; XOF_SIZE]) -> (r: (Vec<T>, T))
        requires
            0 < idx@.len() <= self@.cor_words.len(),
            idx@.len() <= self@.cs.len(),
        ensures
            r.0@.len() == idx@.len() - 1,
            forall|i: int|
                0 <= i < r.0@.len() ==> (#[trigger] r.0@[i])@ == word_at::<T>(
                    self@,
                    idx@.take(i + 1),
                ),
            r.1@ == word_at::<T>(self@, idx@),
            final(pi)@ == state_at(self@, old(pi)@, idx@.drop_last()).proof,
    {
        let mut out: Vec<T> = Vec::new();
        let mut state = self.eval_init();
        let mut bit_str = String::new();
        state.proof = *pi;
        let ghost start = pi@;
        let last = idx.len() - 1;
        assert(bit_str@ =~= bitstring_view(idx@.take(0)));
        for i in 0..last
            invariant
                last == idx@.len() - 1,
                idx@.len() <= self@.cor_words.len(),
                idx@.len() <= self@.cs.len(),
                bit_str@ == bitstring_view(idx@.take(i as int)),
                state@ == state_at(self@, start, idx@.take(i as int)),
                state@.level == i,
                out@.len() == i,
                forall|j: int|
                    0 <= j < i ==> (#[trigger] out@[j])@ == word_at::<T>(self@, idx@.take(j + 1)),
        {
            let bit = idx[i];
            bit_str.push(
                if bit {
                    '1'
                } else {
                    '0'
                },
            );
            assert(bit_str@ =~= bitstring_view(idx@.take(i + 1)));
            assert(idx@.take(i + 1).drop_last() =~= idx@.take(i as int));
            proof {
                lemma_state_proof_irrelevant(self@, start, zero_proof(), idx@.take(i as int));
            }
            let (state_new, word) = self.eval_bit(&state, bit, &bit_str);
            out.push(word);
            state = state_new;
        }
        assert(idx@.drop_last() =~= idx@.take(last as int));
        proof {
            lemma_state_proof_irrelevant(self@, start, zero_proof(), idx@.drop_last());
        }
        let (_st, word) = self.eval_bit(&state, idx[last], &bit_str);
        *pi = state.proof;
        (out, word)
    }

    /// The number of levels.
    pub fn domain_size(&self) -> (r: usize)
        ensures
            r == self@.cor_words.len(),
    {
        self.cor_words.len()
    }
}

} // verus!
