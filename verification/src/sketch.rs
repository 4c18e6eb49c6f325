use vstd::prelude::*;

use crate::consts::{TRIPLES_PER_LEVEL, XOF_SIZE};
use crate::dpf::{
    eval_state, eval_word, gen_view, honest_pair, in_domain, root_state, state_at, word_at,
    zero_proof, DPFKey, EvalState, KeyView,
};
use crate::emb_cnt::{EmbCnt, EmbView};
use crate::field::{fe_drawn, fe_rest, field, field_mul, FE, MODULUS};
use crate::group::{Group, Share};
use crate::prg::{PrgSeed, PrgStream, StreamView};
use vstd::utf8::encode_utf8;

verus! {

/// One party's share of a multiplication triple.
#[derive(Clone, Copy, Debug)]
pub struct TripleShare<T> {
    pub a: T,
    pub b: T,
    pub c: T,
}

/// Whether two shares make up a multiplication triple: the third sum is the product of the others.
pub open spec fn is_triple(t0: TripleShare<FE>, t1: TripleShare<FE>) -> bool {
    field(t0.c@ + t1.c@) == field_mul(field(t0.a@ + t1.a@), field(t0.b@ + t1.b@))
}

impl TripleShare<FE> {
    /// The shares of the multiplication triple of `a` and `b` whose first shares are given.
    pub fn from_parts(a: FE, b: FE, a0: FE, b0: FE, c0: FE) -> (r: [TripleShare<FE>; 2])
        ensures
            r@[0] == (TripleShare { a: a0, b: b0, c: c0 }),
            r@[1].a@ == field(a@ - a0@),
            r@[1].b@ == field(b@ - b0@),
            r@[1].c@ == field(field_mul(a@, b@) - c0@),
            is_triple(r@[0], r@[1]),
    {
        a.bounded();
        b.bounded();
        a0.bounded();
        b0.bounded();
        c0.bounded();
        let mut c1 = a;
        c1.mul(&b);
        c1.sub(&c0);
        let mut a1 = a;
        a1.sub(&a0);
        let mut b1 = b;
        b1.sub(&b0);
        proof {
            lemma_rest_share(a@, a0@);
            lemma_rest_share(b@, b0@);
            lemma_rest_share(field_mul(a@, b@), c0@);
        }
        [TripleShare { a: a0, b: b0, c: c0 }, TripleShare { a: a1, b: b1, c: c1 }]
    }

    /// The shares of a random multiplication triple.
    pub fn new() -> (r: [TripleShare<FE>; 2])
        ensures
            is_triple(r@[0], r@[1]),
    {
        TripleShare::from_parts(
            FE::random(),
            FE::random(),
            FE::random(),
            FE::random(),
            FE::random(),
        )
    }
}

/// A share and what it lacks add up to the element that was shared.
proof fn lemma_rest_share(x: int, s: int)
    requires
        0 <= x < MODULUS,
        0 <= s < MODULUS,
    ensures
        field(s + field(x - s)) == x,
{
}

/// One party's share of the sketch of a vector, with the randomness of the check that follows.
#[derive(Clone, Copy, Debug)]
pub struct SketchOutput<T> {
    pub r_x: T,
    pub r2_x: T,
    pub r_kx: T,
    pub rand1: T,
    pub rand2: T,
    pub rand3: T,
}

/// The model of a `SketchOutput`.
pub struct SketchView {
    pub r_x: int,
    pub r2_x: int,
    pub r_kx: int,
    pub rand1: int,
    pub rand2: int,
    pub rand3: int,
}

impl View for SketchOutput<FE> {
    type V = SketchView;

    open spec fn view(&self) -> SketchView {
        SketchView {
            r_x: self.r_x@,
            r2_x: self.r2_x@,
            r_kx: self.r_kx@,
            rand1: self.rand1@,
            rand2: self.rand2@,
            rand3: self.rand3@,
        }
    }
}

impl SketchOutput<FE> {
    /// The sketch of the empty vector without randomness.
    pub fn zero() -> (r: SketchOutput<FE>)
        ensures
            r@ == (SketchView { r_x: 0, r2_x: 0, r_kx: 0, rand1: 0, rand2: 0, rand3: 0 }),
    {
        let z = FE::zero();
        SketchOutput { r_x: z, r2_x: z, r_kx: z, rand1: z, rand2: z, rand3: z }
    }

    /// Finishes what lazy operations put off.
    pub fn reduce(&mut self)
        ensures
            final(self)@ == old(self)@,
    {
        self.r_x.reduce();
        self.r2_x.reduce();
        self.r_kx.reduce();
    }
}

/// The stream that is left once `n` field elements were taken.
pub open spec fn after_draws(s: StreamView, n: nat) -> StreamView
    decreases n,
{
    if n == 0 {
        s
    } else {
        fe_rest(after_draws(s, (n - 1) as nat))
    }
}

/// The first `n` field elements that a stream offers.
pub open spec fn draws(s: StreamView, n: nat) -> Seq<int> {
    Seq::new(n, |i: int| fe_drawn(after_draws(s, i as nat)))
}

/// The inner product of two vectors over the field.
pub open spec fn inner_product(xs: Seq<int>, ws: Seq<int>) -> int
    decreases xs.len(),
{
    if xs.len() == 0 {
        0
    } else {
        field(
            inner_product(xs.drop_last(), ws.drop_last()) + field_mul(xs.last(), ws.last()),
        )
    }
}

/// The squares of the entries of a vector.
pub open spec fn squares(ws: Seq<int>) -> Seq<int> {
    Seq::new(ws.len(), |i: int| field_mul(ws[i], ws[i]))
}

/// The sketch of a vector of values and their authentication codes, with the randomness of a
/// stream: the first three elements are set aside, the others weigh the entries.
pub open spec fn sketch_view(xs: Seq<int>, kxs: Seq<int>, s: StreamView) -> SketchView {
    let ws = draws(after_draws(s, 3), xs.len());
    SketchView {
        r_x: inner_product(xs, ws),
        r2_x: inner_product(xs, squares(ws)),
        r_kx: inner_product(kxs, ws),
        rand1: fe_drawn(s),
        rand2: fe_drawn(after_draws(s, 1)),
        rand3: fe_drawn(after_draws(s, 2)),
    }
}

/// The first components of a vector of pairs.
pub open spec fn firsts(v: Seq<(FE, FE)>) -> Seq<int> {
    Seq::new(v.len(), |i: int| v[i].0@)
}

/// The second components of a vector of pairs.
pub open spec fn seconds(v: Seq<(FE, FE)>) -> Seq<int> {
    Seq::new(v.len(), |i: int| v[i].1@)
}

/// One party's share of a client's contribution: the count with its embedding at every prefix of
/// the client's path, authenticated under a key that neither party knows.
#[derive(Debug)]
pub struct SketchDPFKey {
    pub mac_key: FE,
    pub mac_key2: FE,
    pub key: DPFKey<(EmbCnt, FE)>,
    pub triples: Vec<TripleShare<FE>>,
}

/// The payload of a key: a count with its embedding and the authentication code of the count.
pub type Payload = (EmbCnt, FE);

/// The model of a `SketchDPFKey`.
#[verifier::ext_equal]
pub struct SketchKeyView {
    pub mac_key: int,
    pub mac_key2: int,
    pub key: KeyView<(EmbView, int)>,
    pub triples: Seq<TripleShare<FE>>,
}

impl View for SketchDPFKey {
    type V = SketchKeyView;

    open spec fn view(&self) -> SketchKeyView {
        SketchKeyView {
            mac_key: self.mac_key@,
            mac_key2: self.mac_key2@,
            key: self.key@,
            triples: self.triples@,
        }
    }
}

/// The authentication key that two parties share.
pub open spec fn joint_mac_key(k0: SketchKeyView, k1: SketchKeyView) -> int {
    field(k0.mac_key + k1.mac_key)
}

/// The payloads that authenticate the counts of `values` under the key `mac_key`.
pub open spec fn authenticated(values: Seq<EmbView>, mac_key: int) -> Seq<(EmbView, int)> {
    Seq::new(values.len(), |i: int| (values[i], field_mul(values[i].count, mac_key)))
}

/// Whether two keys were generated together for the path `alpha` with the values `values`.
pub open spec fn honest_sketch_pair(
    k0: SketchKeyView,
    k1: SketchKeyView,
    alpha: Seq<bool>,
    values: Seq<EmbView>,
) -> bool {
    let mac_key = joint_mac_key(k0, k1);
    &&& field(k0.mac_key2 + k1.mac_key2) == field_mul(mac_key, mac_key)
    &&& honest_pair::<Payload>(k0.key, k1.key, alpha, authenticated(values, mac_key))
    &&& k0.triples.len() == TRIPLES_PER_LEVEL * alpha.len()
    &&& k1.triples.len() == TRIPLES_PER_LEVEL * alpha.len()
    &&& forall|i: int|
        0 <= i < k0.triples.len() ==> is_triple(#[trigger] k0.triples[i], k1.triples[i])
}

impl Clone for SketchDPFKey {
    fn clone(&self) -> (r: Self)
        ensures
            r@ == self@,
    {
        let mut triples: Vec<TripleShare<FE>> = Vec::new();
        for i in 0..self.triples.len()
            invariant
                triples@ == self.triples@.take(i as int),
        {
            triples.push(self.triples[i]);
            assert(triples@ =~= self.triples@.take(i + 1));
        }
        assert(triples@ =~= self.triples@);
        SketchDPFKey {
            mac_key: self.mac_key,
            mac_key2: self.mac_key2,
            key: self.key.clone(),
            triples,
        }
    }
}

impl SketchDPFKey {
    /// The pair of keys that contributes `values_in[i]` at the prefix of length i + 1 of the path
    /// `alpha_bits`, under the authentication key `mac_key`, grown from the given seeds and with the
    /// given first shares and triples.
    pub fn gen_from_parts(
        alpha_bits: &[bool],
        values_in: &[EmbCnt],
        mac_key: FE,
        mac_key_sh0: FE,
        mac_key2_sh0: FE,
        seeds: (PrgSeed, PrgSeed),
        triples0: Vec<TripleShare<FE>>,
        triples1: Vec<TripleShare<FE>>,
    ) -> (keys: [SketchDPFKey; 2])
        requires
            alpha_bits@.len() == values_in@.len(),
        ensures
            ({
                let values = authenticated(values_in@.map_values(|v: EmbCnt| v@), mac_key@);
                &&& keys@[0]@ == (SketchKeyView {
                    mac_key: mac_key_sh0@,
                    mac_key2: mac_key2_sh0@,
                    key: gen_view::<Payload>(alpha_bits@, values, seeds.0@, seeds.1@, false),
                    triples: triples0@,
                })
                &&& keys@[1]@ == (SketchKeyView {
                    mac_key: field(mac_key@ - mac_key_sh0@),
                    mac_key2: field(field_mul(mac_key@, mac_key@) - mac_key2_sh0@),
                    key: gen_view::<Payload>(alpha_bits@, values, seeds.0@, seeds.1@, true),
                    triples: triples1@,
                })
            }),
    {
        let mut mac_key_sh1 = mac_key;
        mac_key_sh1.sub(&mac_key_sh0);
        let mut mac_key2_sh1 = mac_key;
        mac_key2_sh1.mul(&mac_key);
        mac_key2_sh1.sub(&mac_key2_sh0);
        let mut values: Vec<(EmbCnt, FE)> = Vec::new();
        for i in 0..alpha_bits.len()
            invariant
                alpha_bits@.len() == values_in@.len(),
                values@.len() == i,
                forall|j: int|
                    0 <= j < i ==> (#[trigger] values@[j])@ == (
                        values_in@[j]@,
                        field_mul(values_in@[j]@.count, mac_key@),
                    ),
        {
            let mut mac_val = values_in[i].count;
            mac_val.mul(&mac_key);
            values.push((values_in[i].duplicate(), mac_val));
        }
        let ghost expected = authenticated(values_in@.map_values(|v: EmbCnt| v@), mac_key@);
        assert(values@.map_values(|v: (EmbCnt, FE)| v@) =~= expected);
        let (dpf_key0, dpf_key1) = DPFKey::gen_from_seeds(alpha_bits, &values, seeds.0, seeds.1);
        [
            SketchDPFKey {
                mac_key: mac_key_sh0,
                mac_key2: mac_key2_sh0,
                key: dpf_key0,
                triples: triples0,
            },
            SketchDPFKey {
                mac_key: mac_key_sh1,
                mac_key2: mac_key2_sh1,
                key: dpf_key1,
                triples: triples1,
            },
        ]
    }

    /// The pair of keys that contributes `values_in[i]` at the prefix of length i + 1 of the path
    /// `alpha_bits`, under a random authentication key.
    pub fn gen(alpha_bits: &[bool], values_in: &[EmbCnt]) -> (keys: [SketchDPFKey; 2])
        requires
            alpha_bits@.len() == values_in@.len(),
            TRIPLES_PER_LEVEL * alpha_bits@.len() <= usize::MAX,
        ensures
            honest_sketch_pair(
                keys@[0]@,
                keys@[1]@,
                alpha_bits@,
                values_in@.map_values(|v: EmbCnt| v@),
            ),
    {
        let mac_key = FE::random();
        let mac_key_sh0 = FE::random();
        let mac_key2_sh0 = FE::random();
        let seeds = (PrgSeed::random(), PrgSeed::random());
        let mut triples0: Vec<TripleShare<FE>> = Vec::new();
        let mut triples1: Vec<TripleShare<FE>> = Vec::new();
        for i in 0..TRIPLES_PER_LEVEL * alpha_bits.len()
            invariant
                triples0@.len() == i,
                triples1@.len() == i,
                forall|j: int|
                    0 <= j < i ==> is_triple(#[trigger] triples0@[j], triples1@[j]),
        {
            let t = TripleShare::<FE>::new();
            triples0.push(t[0]);
            triples1.push(t[1]);
        }
        proof {
            lemma_rest_share(mac_key@, mac_key_sh0@);
            lemma_rest_share(field_mul(mac_key@, mac_key@), mac_key2_sh0@);
        }
        Self::gen_from_parts(
            alpha_bits,
            values_in,
            mac_key,
            mac_key_sh0,
            mac_key2_sh0,
            seeds,
            triples0,
            triples1,
        )
    }

    /// This party's share of the sketch of a vector of values and authentication codes, weighed by
    /// what `rand_stream` offers.
    pub fn sketch_at(&self, vector_in: &[(FE, FE)], rand_stream: &mut PrgStream) -> (out:
        SketchOutput<FE>)
        ensures
            out@ == sketch_view(firsts(vector_in@), seconds(vector_in@), old(rand_stream)@),
            final(rand_stream)@ == after_draws(old(rand_stream)@, 3 + vector_in@.len()),
    {
        let ghost s = rand_stream@;
        let mut out = SketchOutput::<FE>::zero();
        proof {
            reveal_with_fuel(after_draws, 4);
        }
        out.rand1 = FE::draw(rand_stream);
        out.rand2 = FE::draw(rand_stream);
        out.rand3 = FE::draw(rand_stream);
        let ghost body = rand_stream@;
        let ghost xs = firsts(vector_in@);
        let ghost kxs = seconds(vector_in@);
        for i in 0..vector_in.len()
            invariant
                body == after_draws(s, 3),
                xs == firsts(vector_in@),
                kxs == seconds(vector_in@),
                rand_stream@ == after_draws(body, i as nat),
                out.rand1@ == fe_drawn(s),
                out.rand2@ == fe_drawn(after_draws(s, 1)),
                out.rand3@ == fe_drawn(after_draws(s, 2)),
                out.r_x@ == inner_product(xs.take(i as int), draws(body, i as nat)),
                out.r2_x@ == inner_product(xs.take(i as int), squares(draws(body, i as nat))),
                out.r_kx@ == inner_product(kxs.take(i as int), draws(body, i as nat)),
        {
            let sketch_r = FE::draw(rand_stream);
            let mut sketch_r2 = sketch_r;
            sketch_r2.mul_lazy(&sketch_r);
            let (x, kx) = vector_in[i];
            let mut tmp0 = x;
            tmp0.mul_lazy(&sketch_r);
            let mut tmp1 = x;
            tmp1.mul_lazy(&sketch_r2);
            let mut tmp2 = kx;
            tmp2.mul_lazy(&sketch_r);
            out.r_x.add_lazy(&tmp0);
            out.r2_x.add_lazy(&tmp1);
            out.r_kx.add_lazy(&tmp2);
            proof {
                let n = i as nat;
                let ws = draws(body, n + 1);
                assert(ws.drop_last() =~= draws(body, n));
                assert(squares(ws).drop_last() =~= squares(draws(body, n)));
                assert(xs.take(i + 1).drop_last() =~= xs.take(i as int));
                assert(kxs.take(i + 1).drop_last() =~= kxs.take(i as int));
            }
        }
        proof {
            assert(xs.take(xs.len() as int) =~= xs);
            assert(kxs.take(kxs.len() as int) =~= kxs);
            lemma_after_draws_adds(s, 3, vector_in@.len());
        }
        out.reduce();
        out
    }

    /// The state at the root.
    pub fn eval_init(&self) -> (r: EvalState)
        ensures
            r@ == root_state(self.key@, zero_proof()),
    {
        self.key.eval_init()
    }

    /// Evaluates one level down in direction `dir`, carrying the proof along: the new state, the
    /// share of the value and the share of its authentication code.
    pub fn eval_bit(&self, state: &EvalState, dir: bool, bit_str: &String) -> (r: (
        EvalState,
        EmbCnt,
        FE,
    ))
        requires
            in_domain(self.key@, state@),
        ensures
            r.0@ == eval_state(self.key@, state@, dir, encode_utf8(bit_str@)),
            (r.1@, r.2@) == eval_word::<Payload>(self.key@, state@, dir, true),
    {
        let (st, val) = self.key.eval_bit(state, dir, bit_str);
        (st, val.0, val.1)
    }

    /// Evaluates one level down like `eval_bit`, with the same state and proof, but leaves the
    /// embedding empty.
    pub fn eval_bit_no_aux(&self, state: &EvalState, dir: bool, bit_str: &String) -> (r: (
        EvalState,
        EmbCnt,
        FE,
    ))
        requires
            in_domain(self.key@, state@),
        ensures
            r.0@ == eval_state(self.key@, state@, dir, encode_utf8(bit_str@)),
            (r.1@, r.2@) == Payload::clear_aux_view(
                eval_word::<Payload>(self.key@, state@, dir, true),
            ),
    {
        let (st, val) = self.key.eval_bit_no_aux(state, dir, bit_str);
        (st, val.0, val.1)
    }

    /// Evaluates along `idx`, threading the proof through `pi`, and returns the shares at its end.
    pub fn eval(&self, idx: &[bool], pi: &mut [u8; XOF_SIZE]) -> (r: (EmbCnt, FE))
        requires
            0 < idx@.len() <= self.key@.cor_words.len(),
            idx@.len() <= self.key@.cs.len(),
        ensures
            (r.0@, r.1@) == word_at::<Payload>(self.key@, idx@),
            final(pi)@ == state_at(self.key@, old(pi)@, idx@.drop_last()).proof,
    {
        let (_vals, last) = self.key.eval(idx, pi);
        (last.0, last.1)
    }

    /// This party's share of the value at the node at `path`.
    pub fn eval_emb_at_path(&self, path: &[bool]) -> (r: EmbCnt)
        requires
            0 < path@.len() <= self.key@.cor_words.len(),
            path@.len() <= self.key@.cs.len(),
        ensures
            r@ == word_at::<Payload>(self.key@, path@).0,
    {
        self.key.eval_non_incr(path).0
    }

    /// The number of levels.
    pub fn domain_size(&self) -> (r: usize)
        ensures
            r == self.key@.cor_words.len(),
    {
        self.key.domain_size()
    }
}

/// Taking `m` elements and then `n` is taking `m + n`.
pub proof fn lemma_after_draws_adds(s: StreamView, m: nat, n: nat)
    ensures
        after_draws(after_draws(s, m), n) == after_draws(s, m + n),
    decreases n,
{
    if n > 0 {
        lemma_after_draws_adds(s, m, (n - 1) as nat);
    }
}

} // verus!
