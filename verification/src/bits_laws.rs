//! What bits, bytes and texts spell.
use vstd::arithmetic::power2::pow2;
use vstd::prelude::*;

use crate::bits::{
    bits_value, bits_view, bitstring_view, byte_at, byte_bits, lemma_bits_value_bound,
    lemma_bits_value_of_view, text_view,
};

verus! {

/// No bits spell zero, and a further bit on top counts the power of two of its place.
pub proof fn law_bits_spell(bits: Seq<bool>, bit: bool)
    ensures
        bits_value(Seq::empty()) == 0,
        bits_value(bits.push(bit)) == bits_value(bits) + if bit {
            pow2(bits.len())
        } else {
            0
        },
        bits_value(bits) < pow2(bits.len()),
{
    assert(bits.push(bit).drop_last() =~= bits);
    lemma_bits_value_bound(bits);
}

/// The low bits of a number spell what division by the power of two leaves over.
pub proof fn law_bits_of_number(x: nat, n: nat)
    ensures
        bits_view(x, n).len() == n,
        bits_value(bits_view(x, n)) == x % pow2(n),
{
    lemma_bits_value_of_view(x, n);
}

/// The bits of a byte string are eight for every byte, and each group of eight spells its byte.
pub proof fn law_bits_of_bytes(bytes: Seq<u8>, b: int)
    requires
        0 <= b < bytes.len(),
    ensures
        byte_bits(bytes).len() == 8 * bytes.len(),
        bits_value(Seq::new(8, |i: int| byte_bits(bytes)[8 * b + i])) == bytes[b],
        byte_at(byte_bits(bytes), b) == bytes[b],
{
    let all = byte_bits(bytes);
    let group = Seq::new(8, |i: int| all[8 * b + i]);
    assert(group =~= bits_view(bytes[b] as nat, 8)) by {
        assert forall|i: int| 0 <= i < 8 implies group[i] == bits_view(bytes[b] as nat, 8)[i] by {
            assert((8 * b + i) / 8 == b);
            assert((8 * b + i) % 8 == i);
        }
    }
    assert(all.subrange(8 * b, 8 * b + 8) =~= group);
    lemma_bits_value_of_view(bytes[b] as nat, 8);
    vstd::arithmetic::power2::lemma2_to64();
}

/// The text of some bits has a character for every eight of them, with the number that they spell.
pub proof fn law_text_of_bits(bits: Seq<bool>, b: int)
    requires
        bits.len() % 8 == 0,
        0 <= b < bits.len() / 8,
    ensures
        text_view(bits).len() == bits.len() / 8,
        text_view(bits)[b] == bits_value(Seq::new(8, |i: int| bits[8 * b + i])) as char,
{
    assert(bits.subrange(8 * b, 8 * b + 8) =~= Seq::new(8, |i: int| bits[8 * b + i]));
}

/// A path is written with a digit for every direction.
pub proof fn law_bitstring(bits: Seq<bool>, i: int)
    requires
        0 <= i < bits.len(),
    ensures
        bitstring_view(bits).len() == bits.len(),
        bits[i] ==> bitstring_view(bits)[i] == '1',
        !bits[i] ==> bitstring_view(bits)[i] == '0',
{
}

} // verus!
