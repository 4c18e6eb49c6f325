use vstd::bytes::{
    spec_u32_from_le_bytes, spec_u64_from_le_bytes, spec_u64_to_le_bytes, u32_from_le_bytes,
    u64_from_le_bytes, u64_to_le_bytes,
};
use vstd::prelude::*;

use crate::consts::SEED_SIZE;
use crate::group::Group;
use crate::hash::{blake3_digest, digest};
use crate::random::random_bytes;

verus! {

/// Separates the streams that one seed gives rise to.
pub const DOMAIN_EXPAND: u8 = 0;

pub const DOMAIN_CONVERT: u8 = 1;

pub const DOMAIN_STREAM: u8 = 2;

/// A seed of the pseudorandom generator; its view is its bytes.
#[derive(Clone, Copy, Debug)]
pub struct PrgSeed {
    pub key: [u8; SEED_SIZE],
}

impl View for PrgSeed {
    type V = Seq<u8>;

    open spec fn view(&self) -> Seq<u8> {
        self.key@
    }
}

/// A position in the stream of a seed: the next block is `counter` blocks from the start.
pub struct StreamView {
    pub key: Seq<u8>,
    pub domain: u8,
    pub counter: u64,
}

impl StreamView {
    /// The start of the stream of `key` in `domain`.
    pub open spec fn start(key: Seq<u8>, domain: u8) -> StreamView {
        StreamView { key, domain, counter: 0 }
    }

    /// The block at this position.
    pub open spec fn block(self) -> Seq<u8> {
        blake3_digest(self.key + (seq![self.domain] + spec_u64_to_le_bytes(self.counter)))@
    }

    /// The position `n` blocks on; the counter wraps.
    pub open spec fn ahead(self, n: nat) -> StreamView {
        StreamView {
            counter: ((self.counter + n) % 0x1_0000_0000_0000_0000) as u64,
            ..self
        }
    }

    /// The position one block on.
    pub open spec fn next(self) -> StreamView {
        self.ahead(1)
    }

    /// The 64-bit word that the block at this position starts with.
    pub open spec fn word(self) -> u64 {
        spec_u64_from_le_bytes(self.block().take(8))
    }

    /// The `i`th 32-bit word of the blocks from this position on, eight to a block.
    pub open spec fn word32(self, i: int) -> u32 {
        spec_u32_from_le_bytes(
            self.ahead((i / 8) as nat).block().subrange(4 * (i % 8), 4 * (i % 8) + 4),
        )
    }
}

/// A deterministic stream of pseudorandom blocks.
#[derive(Clone, Copy, Debug)]
pub struct PrgStream {
    seed: PrgSeed,
    domain: u8,
    counter: u64,
}

impl View for PrgStream {
    type V = StreamView;

    closed spec fn view(&self) -> StreamView {
        StreamView { key: self.seed@, domain: self.domain, counter: self.counter }
    }
}

impl PrgStream {
    /// The start of the stream of `seed` in `domain`.
    fn start(seed: &PrgSeed, domain: u8) -> (r: PrgStream)
        ensures
            r@ == StreamView::start(seed@, domain),
    {
        PrgStream { seed: *seed, domain, counter: 0 }
    }

    /// Takes the next block.
    pub fn next_block(&mut self) -> (block: [u8; 32])
        ensures
            block@ == old(self)@.block(),
            final(self)@ == old(self)@.next(),
    {
        let mut tail: Vec<u8> = vec![self.domain];
        let mut counter = u64_to_le_bytes(self.counter);
        tail.append(&mut counter);
        assert(tail@ =~= seq![self.domain] + spec_u64_to_le_bytes(self.counter));
        let block = digest(&self.seed.key, &tail);
        self.counter = self.counter.wrapping_add(1);
        block
    }

    /// Takes the next block and returns the word that it starts with.
    pub fn next_u64(&mut self) -> (word: u64)
        ensures
            word == old(self)@.word(),
            final(self)@ == old(self)@.next(),
    {
        let block = self.next_block();
        let head = copy_range(&block, 0, 8);
        assert(head@ =~= block@.take(8));
        u64_from_le_bytes(&head)
    }

    /// Takes `blocks` blocks and returns the 32-bit words in them.
    pub fn next_u32s(&mut self, blocks: usize) -> (words: Vec<u32>)
        requires
            8 * blocks <= usize::MAX,
        ensures
            words@ == Seq::new((8 * blocks) as nat, |i: int| old(self)@.word32(i)),
            final(self)@ == old(self)@.ahead(blocks as nat),
    {
        let ghost start = self@;
        let mut words: Vec<u32> = Vec::new();
        for b in 0..blocks
            invariant
                8 * blocks <= usize::MAX,
                self@ == start.ahead(b as nat),
                words@.len() == 8 * b,
                forall|i: int| 0 <= i < words@.len() ==> words@[i] == start.word32(i),
        {
            let block = self.next_block();
            for k in 0..8usize
                invariant
                    8 * blocks <= usize::MAX,
                    b < blocks,
                    block@ == start.ahead(b as nat).block(),
                    words@.len() == 8 * b + k,
                    forall|i: int| 0 <= i < words@.len() ==> words@[i] == start.word32(i),
            {
                let part = copy_range(&block, 4 * k, 4 * k + 4);
                words.push(u32_from_le_bytes(&part));
                assert((8 * b + k) / 8 == b);
                assert((8 * b + k) % 8 == k);
            }
        }
        assert(words@ =~= Seq::new((8 * blocks) as nat, |i: int| start.word32(i)));
        words
    }
}

/// The bytes of `bytes` from `from` up to `to`.
fn copy_range(bytes: &[u8], from: usize, to: usize) -> (r: Vec<u8>)
    requires
        from <= to <= bytes@.len(),
    ensures
        r@ == bytes@.subrange(from as int, to as int),
{
    let mut r: Vec<u8> = Vec::new();
    for i in from..to
        invariant
            from <= to <= bytes@.len(),
            r@ == bytes@.subrange(from as int, i as int),
    {
        r.push(bytes[i]);
    }
    r
}

/// The bitwise exclusive or of two byte strings, as long as the shorter one.
pub open spec fn xor_view(a: Seq<u8>, b: Seq<u8>) -> Seq<u8> {
    Seq::new(
        if a.len() <= b.len() {
            a.len()
        } else {
            b.len()
        },
        |i: int| a[i] ^ b[i],
    )
}

/// The seeds and control bits of the two children of a node.
#[derive(Clone, Copy, Debug)]
pub struct PrgOutput {
    pub seeds: (PrgSeed, PrgSeed),
    pub bits: (bool, bool),
}

/// A seed for the next level and a payload.
#[derive(Clone, Copy, Debug)]
pub struct ConvertOutput<T> {
    pub seed: PrgSeed,
    pub word: T,
}

/// The seed of the child of `key` in direction `dir`.
pub open spec fn child_seed(key: Seq<u8>, dir: bool) -> Seq<u8> {
    let block = StreamView::start(key, DOMAIN_EXPAND).block();
    if dir {
        block.subrange(SEED_SIZE as int, 2 * SEED_SIZE)
    } else {
        block.subrange(0, SEED_SIZE as int)
    }
}

/// The control bit of the child of `key` in direction `dir`.
pub open spec fn child_bit(key: Seq<u8>, dir: bool) -> bool {
    let flags = StreamView::start(key, DOMAIN_EXPAND).next().block()[0];
    if dir {
        (flags / 2) % 2 == 1
    } else {
        flags % 2 == 1
    }
}

/// The seed that `key` passes on to the next level.
pub open spec fn next_seed(key: Seq<u8>) -> Seq<u8> {
    StreamView::start(key, DOMAIN_CONVERT).block().take(SEED_SIZE as int)
}

/// The stream that the payload of `key` is read from.
pub open spec fn payload_stream(key: Seq<u8>) -> StreamView {
    StreamView::start(key, DOMAIN_CONVERT).next()
}

/// The seed of zero bytes.
pub open spec fn zero_seed() -> Seq<u8> {
    Seq::new(SEED_SIZE as nat, |i: int| 0u8)
}

impl PrgSeed {
    /// The seed of zero bytes.
    pub fn zero() -> (r: PrgSeed)
        ensures
            r@ == zero_seed(),
    {
        let r = PrgSeed { key: [0u8; SEED_SIZE] };
        assert(r@ =~= zero_seed());
        r
    }

    /// A random seed.
    pub fn random() -> (r: PrgSeed)
        ensures
            r@.len() == SEED_SIZE,
    {
        PrgSeed { key: random_bytes() }
    }

    /// The bytes of `block` from `from` on.
    fn from_block(block: &[u8; 32], from: usize) -> (r: PrgSeed)
        requires
            from + SEED_SIZE <= 32,
        ensures
            r@ == block@.subrange(from as int, from + SEED_SIZE),
    {
        let mut key = [0u8; SEED_SIZE];
        for i in 0..SEED_SIZE
            invariant
                from + SEED_SIZE <= 32,
                forall|j: int| 0 <= j < i ==> key@[j] == block@[from + j],
        {
            key[i] = block[from + i];
        }
        let r = PrgSeed { key };
        assert(r@ =~= block@.subrange(from as int, from + SEED_SIZE));
        r
    }

    /// The bitwise exclusive or of this seed and `other`.
    pub fn xor(&self, other: &PrgSeed) -> (r: PrgSeed)
        ensures
            r@ == xor_view(self@, other@),
    {
        let mut key = [0u8; SEED_SIZE];
        for i in 0..SEED_SIZE
            invariant
                forall|j: int| 0 <= j < i ==> key@[j] == self.key@[j] ^ other.key@[j],
        {
            key[i] = self.key[i] ^ other.key[i];
        }
        let r = PrgSeed { key };
        assert(r@ =~= xor_view(self@, other@));
        r
    }

    /// The children of this seed; the seed of a child that is not asked for is zero.
    pub fn expand_dir(&self, left: bool, right: bool) -> (r: PrgOutput)
        ensures
            r.seeds.0@ == if left {
                child_seed(self@, false)
            } else {
                zero_seed()
            },
            r.seeds.1@ == if right {
                child_seed(self@, true)
            } else {
                zero_seed()
            },
            r.bits == (child_bit(self@, false), child_bit(self@, true)),
    {
        let mut stream = PrgStream::start(self, DOMAIN_EXPAND);
        let block = stream.next_block();
        let flags: u8 = stream.next_block()[0];
        let seed_0 = if left {
            PrgSeed::from_block(&block, 0)
        } else {
            PrgSeed::zero()
        };
        let seed_1 = if right {
            PrgSeed::from_block(&block, SEED_SIZE)
        } else {
            PrgSeed::zero()
        };
        PrgOutput { seeds: (seed_0, seed_1), bits: (flags % 2 == 1, (flags / 2) % 2 == 1) }
    }

    /// Both children of this seed.
    pub fn expand(&self) -> (r: PrgOutput)
        ensures
            r.seeds.0@ == child_seed(self@, false),
            r.seeds.1@ == child_seed(self@, true),
            r.bits == (child_bit(self@, false), child_bit(self@, true)),
    {
        self.expand_dir(true, true)
    }

    /// The seed for the next level and the payload at this node.
    pub fn convert<T: FromRng>(&self) -> (r: ConvertOutput<T>)
        ensures
            r.seed@ == next_seed(self@),
            r.word@ == T::drawn(payload_stream(self@)),
    {
        let mut stream = PrgStream::start(self, DOMAIN_CONVERT);
        let block = stream.next_block();
        let seed = PrgSeed::from_block(&block, 0);
        assert(seed@ =~= next_seed(self@));
        let mut word = T::zero();
        word.from_rng(&mut stream);
        ConvertOutput { seed, word }
    }

    /// The seed for the next level and the payload at this node without its auxiliary part.
    pub fn convert_no_aux<T: FromRng>(&self) -> (r: ConvertOutput<T>)
        ensures
            r.seed@ == next_seed(self@),
            r.word@ == T::drawn_no_aux(payload_stream(self@)),
    {
        let mut stream = PrgStream::start(self, DOMAIN_CONVERT);
        let block = stream.next_block();
        let seed = PrgSeed::from_block(&block, 0);
        assert(seed@ =~= next_seed(self@));
        let mut word = T::zero();
        word.from_rng_no_aux(&mut stream);
        ConvertOutput { seed, word }
    }

    /// A stream of random words seeded by this seed.
    pub fn to_rng(&self) -> (r: PrgStream)
        ensures
            r@ == StreamView::start(self@, DOMAIN_STREAM),
    {
        PrgStream::start(self, DOMAIN_STREAM)
    }
}

/// A type whose elements can be read off a pseudorandom stream.
pub trait FromRng: Group {
    /// The element that a stream starts with.
    spec fn drawn(s: StreamView) -> Self::V;

    /// What is left of a stream once that element was taken.
    spec fn drawn_rest(s: StreamView) -> StreamView;

    /// The element that a stream starts with, read without its auxiliary part.
    spec fn drawn_no_aux(s: StreamView) -> Self::V;

    /// What is left of a stream once that was read.
    spec fn drawn_no_aux_rest(s: StreamView) -> StreamView;

    /// What is drawn is valid, and drawing without the auxiliary part loses nothing else.
    proof fn lemma_drawn(s: StreamView)
        ensures
            Self::valid(Self::drawn(s)),
            Self::drawn_no_aux(s) == Self::clear_aux_view(Self::drawn(s)),
    ;

    /// Replaces this element by one drawn from `rng`.
    fn from_rng(&mut self, rng: &mut PrgStream)
        ensures
            final(self)@ == Self::drawn(old(rng)@),
            final(rng)@ == Self::drawn_rest(old(rng)@),
    ;

    /// Replaces this element by one drawn from `rng`, leaving the auxiliary part undrawn.
    fn from_rng_no_aux(&mut self, rng: &mut PrgStream)
        ensures
            final(self)@ == Self::drawn_no_aux(old(rng)@),
            final(rng)@ == Self::drawn_no_aux_rest(old(rng)@),
    ;

    /// Replaces this element by a random one.
    fn randomize(&mut self)
        ensures
            Self::valid(final(self)@),
    {
        let mut rng = PrgSeed::random().to_rng();
        proof {
            Self::lemma_drawn(rng@);
        }
        self.from_rng(&mut rng);
    }
}

impl FromRng for u64 {
    open spec fn drawn(s: StreamView) -> u64 {
        s.word()
    }

    open spec fn drawn_rest(s: StreamView) -> StreamView {
        s.next()
    }

    open spec fn drawn_no_aux(s: StreamView) -> u64 {
        s.word()
    }

    open spec fn drawn_no_aux_rest(s: StreamView) -> StreamView {
        s.next()
    }

    proof fn lemma_drawn(s: StreamView) {
    }

    fn from_rng(&mut self, rng: &mut PrgStream) {
        *self = rng.next_u64();
    }

    fn from_rng_no_aux(&mut self, rng: &mut PrgStream) {
        *self = rng.next_u64();
    }
}

} // verus!
