use vstd::arithmetic::power2::{lemma2_to64, lemma_pow2_pos, lemma_pow2_unfold, pow2};
use vstd::bits::lemma_u32_shr_is_div;
use vstd::prelude::*;
use vstd::utf8::encode_utf8;

use crate::consts::XOF_SIZE;
use crate::prg::xor_view;

verus! {

/// `String::push`, of which the documentation says that it appends the character.
pub assume_specification[ String::push ](s: &mut String, c: char)
    ensures
        final(s)@ == old(s)@.push(c),
;

/// The `i`th bit of `x`, counted from the least significant.
pub open spec fn bit_of(x: nat, i: nat) -> bool {
    (x / pow2(i)) % 2 == 1
}

/// The `n` least significant bits of `x`, least significant first.
pub open spec fn bits_view(x: nat, n: nat) -> Seq<bool> {
    Seq::new(n, |i: int| bit_of(x, i as nat))
}

/// The number that `bits` spell, least significant first.
pub open spec fn bits_value(bits: Seq<bool>) -> nat
    decreases bits.len(),
{
    if bits.len() == 0 {
        0
    } else {
        bits_value(bits.drop_last()) + if bits.last() {
            pow2((bits.len() - 1) as nat)
        } else {
            0
        }
    }
}

/// The bits of a byte string, byte by byte and least significant first.
pub open spec fn byte_bits(bytes: Seq<u8>) -> Seq<bool> {
    Seq::new(8 * bytes.len(), |k: int| bit_of(bytes[k / 8] as nat, (k % 8) as nat))
}

/// The value of the `b`th group of eight bits.
pub open spec fn byte_at(bits: Seq<bool>, b: int) -> nat {
    bits_value(bits.subrange(8 * b, 8 * b + 8))
}

/// The text whose characters have the values of the groups of eight bits.
pub open spec fn text_view(bits: Seq<bool>) -> Seq<char> {
    Seq::new(bits.len() / 8, |b: int| byte_at(bits, b) as char)
}

/// A path written as a text of zeros and ones.
pub open spec fn bitstring_view(bits: Seq<bool>) -> Seq<char> {
    Seq::new(
        bits.len(),
        |i: int|
            if bits[i] {
                '1'
            } else {
                '0'
            },
    )
}

/// `n` bits spell a number below 2^n.
pub proof fn lemma_bits_value_bound(bits: Seq<bool>)
    ensures
        bits_value(bits) < pow2(bits.len()),
    decreases bits.len(),
{
    if bits.len() == 0 {
        lemma_pow2_pos(0);
    } else {
        lemma_bits_value_bound(bits.drop_last());
        lemma_pow2_unfold(bits.len());
    }
}

/// The `n` least significant bits of `x` spell `x` modulo 2^n.
pub proof fn lemma_bits_value_of_view(x: nat, n: nat)
    ensures
        bits_value(bits_view(x, n)) == x % pow2(n),
    decreases n,
{
    if n == 0 {
        assert(pow2(0) == 1) by {
            lemma2_to64();
        }
    } else {
        let m = (n - 1) as nat;
        assert(bits_view(x, n).drop_last() =~= bits_view(x, m));
        lemma_bits_value_of_view(x, m);
        lemma_pow2_unfold(n);
        lemma_pow2_pos(m);
        let p = pow2(m);
        let q = x / p;
        assert(x % (2 * p) == x % p + p * (q % 2)) by {
            vstd::arithmetic::div_mod::lemma_mod_breakdown(x as int, p as int, 2);
            assert(p * 2 == 2 * p);
        }
        if q % 2 == 1 {
            assert(p * 1 == p);
        } else {
            assert(p * 0 == 0);
        }
    }
}

/// A text of ASCII characters is read back from its bits.
pub proof fn law_text_round_trip(s: Seq<char>)
    requires
        vstd::utf8::is_ascii_chars(s),
    ensures
        text_view(byte_bits(encode_utf8(s))) == s,
        forall|b: int|
            0 <= b < s.len() ==> #[trigger] byte_at(byte_bits(encode_utf8(s)), b) < 128,
{
    let bytes = encode_utf8(s);
    vstd::utf8::is_ascii_chars_encode_utf8(s);
    assert(bytes.len() == s.len());
    let bits = byte_bits(bytes);
    assert forall|b: int| 0 <= b < s.len() implies byte_at(bits, b) == bytes[b] && bytes[b] < 128
        && bytes[b] as char == s[b] by {
        let group = bits.subrange(8 * b, 8 * b + 8);
        assert(group =~= bits_view(bytes[b] as nat, 8)) by {
            assert forall|i: int| 0 <= i < 8 implies group[i] == bits_view(
                bytes[b] as nat,
                8,
            )[i] by {
                assert((8 * b + i) / 8 == b);
                assert((8 * b + i) % 8 == i);
            }
        }
        lemma_bits_value_of_view(bytes[b] as nat, 8);
        lemma2_to64();
        assert(bytes[b] == s[b] as u8);
        assert(0 <= (s[b] as u32) < 128);
    }
    assert(text_view(bits) =~= s);
}

/// The `nbits` least significant bits of `input`, least significant first.
pub fn u32_to_bits(nbits: u8, input: u32) -> (out: Vec<bool>)
    requires
        nbits <= 32,
    ensures
        out@ == bits_view(input as nat, nbits as nat),
{
    let mut out: Vec<bool> = Vec::new();
    for i in 0..nbits
        invariant
            nbits <= 32,
            out@ == bits_view(input as nat, i as nat),
    {
        let bit = (input & (1u32 << i)) != 0;
        proof {
            let i32 = i as u32;
            assert(((input & (1u32 << i)) != 0) == ((input >> i32) % 2 == 1)) by (bit_vector)
                requires
                    i < 32,
                    i32 == i as u32,
            ;
            lemma_u32_shr_is_div(input, i32);
        }
        out.push(bit);
        assert(out@ =~= bits_view(input as nat, (i + 1) as nat));
    }
    out
}

/// The bits of the bytes of `s`.
pub fn string_to_bits(s: &str) -> (out: Vec<bool>)
    ensures
        out@ == byte_bits(encode_utf8(s@)),
{
    let bytes = s.as_bytes();
    let mut out: Vec<bool> = Vec::new();
    for b in 0..bytes.len()
        invariant
            bytes@ == encode_utf8(s@),
            out@ == byte_bits(bytes@.take(b as int)),
    {
        let mut group = u32_to_bits(8, bytes[b] as u32);
        let ghost before = out@;
        out.append(&mut group);
        proof {
            let all = byte_bits(bytes@.take(b + 1));
            assert forall|k: int| 0 <= k < all.len() implies out@[k] == all[k] by {
                if k >= 8 * b {
                    assert(k / 8 == b);
                    assert(k % 8 == k - 8 * b);
                }
            }
            assert(out@ =~= all);
        }
    }
    assert(bytes@.take(bytes@.len() as int) =~= bytes@);
    out
}

/// The byte that eight bits spell, least significant first.
fn bits_to_u8(bits: &[bool]) -> (out: u8)
    requires
        bits@.len() == 8,
    ensures
        out == bits_value(bits@),
{
    let mut out = 0u8;
    for i in 0..8u8
        invariant
            bits@.len() == 8,
            out == bits_value(bits@.take(i as int)),
    {
        let b8: u8 = if bits[i as usize] {
            1
        } else {
            0
        };
        proof {
            let prefix = bits@.take(i as int);
            lemma_bits_value_bound(prefix);
            assert(bits@.take(i + 1).drop_last() =~= prefix);
            vstd::bits::lemma_u8_pow2_no_overflow(i as nat);
            vstd::bits::lemma_u8_shl_is_mul(1, i);
            assert((out | (b8 << i)) == out + (if b8 == 1 {
                1u8 << i
            } else {
                0u8
            })) by (bit_vector)
                requires
                    i < 8,
                    b8 <= 1,
                    out < (1u8 << i),
            ;
        }
        out = out | (b8 << i);
    }
    assert(bits@.take(8) =~= bits@);
    out
}

/// The text whose bits these are. Every group of eight must spell an ASCII character.
pub fn bits_to_string(bits: &[bool]) -> (out: String)
    requires
        bits@.len() % 8 == 0,
        forall|b: int| 0 <= b < bits@.len() / 8 ==> #[trigger] byte_at(bits@, b) < 128,
    ensures
        out@ == text_view(bits@),
{
    let mut out = String::new();
    let len = bits.len();
    let byte_len = len / 8;
    for b in 0..byte_len
        invariant
            len == bits@.len(),
            byte_len == bits@.len() / 8,
            forall|b: int| 0 <= b < bits@.len() / 8 ==> #[trigger] byte_at(bits@, b) < 128,
            out@ == text_view(bits@).take(b as int),
    {
        let byte = vstd::slice::slice_subrange(bits, 8 * b, 8 * (b + 1));
        let ubyte = bits_to_u8(byte);
        assert(ubyte == byte_at(bits@, b as int));
        out.push(ubyte as char);
        assert(out@ =~= text_view(bits@).take(b + 1));
    }
    assert(out@ =~= text_view(bits@));
    out
}

/// The path `bits` as a text of zeros and ones.
pub fn bits_to_bitstring(bits: &[bool]) -> (out: String)
    ensures
        out@ == bitstring_view(bits@),
{
    let mut out = String::new();
    for i in 0..bits.len()
        invariant
            out@ == bitstring_view(bits@.take(i as int)),
    {
        if bits[i] {
            out.push('1');
        } else {
            out.push('0');
        }
        assert(out@ =~= bitstring_view(bits@.take(i + 1)));
    }
    assert(bits@.take(bits@.len() as int) =~= bits@);
    out
}

/// The bitwise exclusive or of two byte strings, as long as the shorter one.
pub fn xor_vec(v1: &[u8], v2: &[u8]) -> (out: Vec<u8>)
    ensures
        out@ == xor_view(v1@, v2@),
{
    let n = if v1.len() <= v2.len() {
        v1.len()
    } else {
        v2.len()
    };
    let mut out: Vec<u8> = Vec::new();
    for i in 0..n
        invariant
            n <= v1@.len(),
            n <= v2@.len(),
            out@.len() == i,
            forall|j: int| 0 <= j < i ==> out@[j] == v1@[j] ^ v2@[j],
    {
        out.push(v1[i] ^ v2[i]);
    }
    assert(out@ =~= xor_view(v1@, v2@));
    out
}

/// `v1` with `v2` exclusive-ored into it as far as `v2` reaches.
pub open spec fn xor_into_view(v1: Seq<u8>, v2: Seq<u8>) -> Seq<u8> {
    Seq::new(
        v1.len(),
        |i: int|
            if i < v2.len() {
                v1[i] ^ v2[i]
            } else {
                v1[i]
            },
    )
}

/// Exclusive-ors `v2` into `v1` as far as both reach.
pub fn xor_in_place(v1: &mut [u8], v2: &[u8])
    ensures
        final(v1)@ == xor_into_view(old(v1)@, v2@),
{
    let n = v1.len();
    for i in 0..n
        invariant
            n == v1@.len(),
            n == old(v1)@.len(),
            forall|j: int| 0 <= j < i ==> v1@[j] == xor_into_view(old(v1)@, v2@)[j],
            forall|j: int| i <= j < n ==> v1@[j] == old(v1)@[j],
    {
        if i < v2.len() {
            let x: u8 = v1[i];
            v1[i] = x ^ v2[i];
        }
    }
    assert(v1@ =~= xor_into_view(old(v1)@, v2@));
}

/// The bitwise exclusive or of three byte strings, as long as the shortest one.
pub fn xor_three_vecs(v1: &[u8], v2: &[u8], v3: &[u8]) -> (out: Vec<u8>)
    ensures
        out@ == xor_view(xor_view(v1@, v2@), v3@),
{
    let first = xor_vec(v1, v2);
    xor_vec(&first, v3)
}

/// Whether two hashes hold the same bytes.
pub(crate) fn same_hash(a: &[u8; XOF_SIZE], b: &[u8; XOF_SIZE]) -> (r: bool)
    ensures
        r == (a@ == b@),
{
    for i in 0..XOF_SIZE
        invariant
            forall|j: int| 0 <= j < i ==> a@[j] == b@[j],
    {
        if a[i] != b[i] {
            return false;
        }
    }
    assert(a@ =~= b@);
    true
}

/// Whether two lists of hashes agree wherever both have one.
pub fn check_hashes(hashes_0: &[[u8; XOF_SIZE]], hashes_1: &[[u8; XOF_SIZE]]) -> (r: bool)
    ensures
        r == forall|i: int|
            0 <= i < hashes_0@.len() && i < hashes_1@.len() ==> (#[trigger] hashes_0@[i])@
                == hashes_1@[i]@,
{
    let n = if hashes_0.len() <= hashes_1.len() {
        hashes_0.len()
    } else {
        hashes_1.len()
    };
    for i in 0..n
        invariant
            n <= hashes_0@.len(),
            n <= hashes_1@.len(),
            forall|j: int| 0 <= j < i ==> (#[trigger] hashes_0@[j])@ == hashes_1@[j]@,
    {
        if !same_hash(&hashes_0[i], &hashes_1[i]) {
            assert(hashes_0@[i as int]@ != hashes_1@[i as int]@);
            return false;
        }
    }
    true
}

/// Takes the element at `index` out of `vec`, moving the last element into its place.
pub fn take<T>(vec: &mut Vec<T>, index: usize) -> (r: Option<T>)
    ensures
        index < old(vec)@.len() ==> r == Some(old(vec)@[index as int]) && final(vec)@ == old(
            vec,
        )@.update(index as int, old(vec)@.last()).drop_last(),
        index >= old(vec)@.len() ==> r is None && final(vec)@ == old(vec)@,
{
    if index >= vec.len() {
        None
    } else {
        Some(vec.swap_remove(index))
    }
}

} // verus!
