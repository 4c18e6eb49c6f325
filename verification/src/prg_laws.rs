//! What the pseudorandom generator reads off the hash function.
use vstd::bytes::{spec_u32_from_le_bytes, spec_u64_from_le_bytes, spec_u64_to_le_bytes};
use vstd::prelude::*;

use crate::bits::xor_into_view;
use crate::consts::SEED_SIZE;
use crate::hash::{blake3_digest, short_digest};
use crate::prg::{
    child_bit, child_seed, next_seed, payload_stream, xor_view, zero_seed, StreamView,
    DOMAIN_CONVERT, DOMAIN_EXPAND, DOMAIN_STREAM,
};

verus! {

/// The exclusive or of two byte strings is as long as the shorter one, and its bytes are those of
/// the two exclusive-ored. Exclusive-oring one string into another leaves what has no partner.
pub proof fn law_exclusive_or(a: Seq<u8>, b: Seq<u8>)
    ensures
        xor_view(a, b).len() <= a.len(),
        xor_view(a, b).len() <= b.len(),
        xor_view(a, b).len() == a.len() || xor_view(a, b).len() == b.len(),
        forall|i: int|
            0 <= i < a.len() && i < b.len() ==> #[trigger] xor_view(a, b)[i] == a[i] ^ b[i],
        xor_into_view(a, b).len() == a.len(),
        forall|i: int|
            0 <= i < a.len() && i < b.len() ==> #[trigger] xor_into_view(a, b)[i] == a[i] ^ b[i],
        forall|i: int| b.len() <= i < a.len() ==> #[trigger] xor_into_view(a, b)[i] == a[i],
{
}

/// A short digest is the start of the full one.
pub proof fn law_short_digest(input: Seq<u8>, i: int)
    ensures
        short_digest(input).len() == 16,
        0 <= i < 16 ==> short_digest(input)[i] == blake3_digest(input)@[i],
{
}

/// The block at a position of a stream is the digest of the key, the domain and the position in
/// eight bytes, in this order.
pub proof fn law_block(s: StreamView, input: Seq<u8>)
    requires
        input.len() == s.key.len() + 9,
        input.take(s.key.len() as int) == s.key,
        input[s.key.len() as int] == s.domain,
        input.skip((s.key.len() + 1) as int) == spec_u64_to_le_bytes(s.counter),
    ensures
        s.block() == blake3_digest(input)@,
        s.block().len() == 32,
{
    assert(input =~= s.key + (seq![s.domain] + input.skip((s.key.len() + 1) as int))) by {
        assert forall|i: int| 0 <= i < s.key.len() implies input[i] == s.key[i] by {
            assert(input.take(s.key.len() as int)[i] == input[i]);
        }
        assert forall|i: int| s.key.len() + 1 <= i < input.len() implies input[i] == input.skip(
            (s.key.len() + 1) as int,
        )[i - s.key.len() - 1] by {
        }
    }
}

/// A stream starts at its first block, and the three uses of a seed have streams of their own.
pub proof fn law_start(key: Seq<u8>, domain: u8)
    ensures
        StreamView::start(key, domain) == (StreamView { key, domain, counter: 0 }),
        DOMAIN_EXPAND != DOMAIN_CONVERT,
        DOMAIN_EXPAND != DOMAIN_STREAM,
        DOMAIN_CONVERT != DOMAIN_STREAM,
{
}

/// Going on by some blocks changes the position alone, which wraps at 2^64, and two positions less
/// than 2^64 blocks apart are different ones.
pub proof fn law_positions(s: StreamView, m: nat, n: nat)
    ensures
        s.ahead(m).key == s.key,
        s.ahead(m).domain == s.domain,
        (s.ahead(m).counter - s.counter - m) % 0x1_0000_0000_0000_0000 == 0,
        s.next() == s.ahead(1),
        m < n < m + 0x1_0000_0000_0000_0000 ==> s.ahead(m) != s.ahead(n),
{
    let a = s.counter + m;
    let q = a / 0x1_0000_0000_0000_0000;
    assert(a - a % 0x1_0000_0000_0000_0000 == q * 0x1_0000_0000_0000_0000);
    if m < n < m + 0x1_0000_0000_0000_0000 && s.ahead(m) == s.ahead(n) {
        assert((s.counter + m) % 0x1_0000_0000_0000_0000 == (s.counter + n)
            % 0x1_0000_0000_0000_0000);
    }
}

/// A word is the start of its block, and the 32-bit words of a stream are the quarters of words in
/// the order of the blocks, eight to a block, all little-endian.
pub proof fn law_words(s: StreamView, b: nat, k: int)
    requires
        0 <= k < 8,
    ensures
        s.word() == spec_u64_from_le_bytes(s.block().subrange(0, 8)),
        s.word32(8 * b + k) == spec_u32_from_le_bytes(
            s.ahead(b).block().subrange(4 * k, 4 * k + 4),
        ),
{
    assert((8 * b + k) / 8 == b);
    assert((8 * b + k) % 8 == k);
    assert(s.block().take(8) =~= s.block().subrange(0, 8));
}

/// The seeds of the two children of a node are the two halves of one block, their control bits are
/// two bits of the block that follows, the seed passed on is the start of the first block of a second
/// stream, and the payload is read from the blocks after that. No two of these share a block.
pub proof fn law_children(key: Seq<u8>)
    requires
        key.len() == SEED_SIZE,
    ensures
        ({
            let grow = StreamView { key, domain: 0, counter: 0 };
            let pass = StreamView { key, domain: 1, counter: 0 };
            let flags = grow.ahead(1).block()[0];
            &&& child_seed(key, false) + child_seed(key, true) == grow.block()
            &&& child_seed(key, false).len() == SEED_SIZE
            &&& child_seed(key, true).len() == SEED_SIZE
            &&& child_bit(key, false) == (flags as int % 2 == 1)
            &&& child_bit(key, true) == ((flags as int / 2) % 2 == 1)
            &&& next_seed(key) == pass.block().subrange(0, SEED_SIZE as int)
            &&& payload_stream(key) == pass.ahead(1)
        }),
        zero_seed().len() == SEED_SIZE,
        forall|i: int| 0 <= i < SEED_SIZE ==> #[trigger] zero_seed()[i] == 0,
{
    let grow = StreamView { key, domain: 0, counter: 0 };
    let pass = StreamView { key, domain: 1, counter: 0 };
    assert(child_seed(key, false) + child_seed(key, true) =~= grow.block());
    assert(next_seed(key) =~= pass.block().subrange(0, SEED_SIZE as int));
}

} // verus!
