//! What the operations of the groups compute.
use vstd::prelude::*;

use crate::consts::DIM;
use crate::emb_cnt::{EmbCnt, EmbView};
use crate::field::{fe_drawn, fe_rest, field, field_mul, unbiased_view, FE, MODULUS};
use crate::group::Group;
use crate::prg::{FromRng, StreamView};
use crate::sketch::Payload;

verus! {

/// An integer and its representative differ by a multiple of 2^62 - 2^16 + 1, and the representative
/// is the least one that is not negative.
pub proof fn law_representative(x: int)
    ensures
        0 <= field(x) < 0x4000_0000_0000_0000 - 0x1_0000 + 1,
        (x - field(x)) % (0x4000_0000_0000_0000 - 0x1_0000 + 1) == 0,
        MODULUS == 0x4000_0000_0000_0000 - 0x1_0000 + 1,
{
}

/// The operations of the field are those of the integers, reduced.
pub proof fn law_field_operations(a: int, b: int)
    ensures
        FE::zero_view() == 0,
        FE::one_view() == 1,
        FE::add_view(a, b) == field(a + b),
        FE::sub_view(a, b) == field(a - b),
        FE::neg_view(a) == field(-a),
        field_mul(a, b) == field(a * b),
        0 <= a < MODULUS ==> FE::value_view(a) == a,
        FE::valid(a) == (0 <= a < MODULUS),
{
}

/// Every element of the field comes from exactly four words, and the other words from none: drawing
/// is without bias.
pub proof fn law_unbiased(word: u64, x: int, k: int)
    requires
        0 <= x < MODULUS,
        0 <= k < 4,
    ensures
        word == x + k * 0x4000_0000_0000_0000 ==> unbiased_view(word) == Some(x),
        unbiased_view(word) == Some(x) ==> exists|q: int|
            0 <= q < 4 && word == x + #[trigger] (q * 0x4000_0000_0000_0000),
        unbiased_view(word) is None ==> word % 0x4000_0000_0000_0000 >= MODULUS,
{
    if unbiased_view(word) == Some(x) {
        let q = word as int / 0x4000_0000_0000_0000;
        assert(word == x + q * 0x4000_0000_0000_0000);
    }
}

/// Words are added, subtracted and negated modulo 2^64.
pub proof fn law_word_operations(a: u64, b: u64)
    ensures
        u64::zero_view() == 0,
        u64::one_view() == 1,
        u64::add_view(a, b) as int == (a + b) % 0x1_0000_0000_0000_0000,
        u64::sub_view(a, b) as int == (a - b) % 0x1_0000_0000_0000_0000,
        u64::neg_view(a) as int == (-a) % 0x1_0000_0000_0000_0000,
        u64::value_view(a) == a,
        u64::clear_aux_view(a) == a,
{
}

/// Counts are added, subtracted and negated in the field, and embeddings component by component
/// modulo 2^32.
pub proof fn law_count_operations(a: EmbView, b: EmbView, i: int)
    requires
        EmbCnt::valid(a),
        EmbCnt::valid(b),
        0 <= i < DIM,
    ensures
        a.embedding.len() == 768,
        EmbCnt::add_view(a, b).count == field(a.count + b.count),
        EmbCnt::sub_view(a, b).count == field(a.count - b.count),
        EmbCnt::neg_view(a).count == field(-a.count),
        EmbCnt::add_view(a, b).embedding.len() == DIM,
        EmbCnt::sub_view(a, b).embedding.len() == DIM,
        EmbCnt::neg_view(a).embedding.len() == DIM,
        EmbCnt::add_view(a, b).embedding[i] as int == (a.embedding[i] + b.embedding[i])
            % 0x1_0000_0000,
        EmbCnt::sub_view(a, b).embedding[i] as int == (a.embedding[i] - b.embedding[i])
            % 0x1_0000_0000,
        EmbCnt::neg_view(a).embedding[i] as int == (-a.embedding[i]) % 0x1_0000_0000,
        EmbCnt::value_view(a) == a.count,
{
}

/// Zero and one hold that number in the count and in every component. Clearing keeps the count, and
/// where one operand has no embedding the other's stays or is not brought back.
pub proof fn law_count_constants(a: EmbView, i: int)
    requires
        EmbCnt::valid(a),
        0 <= i < DIM,
    ensures
        EmbCnt::zero_view().count == 0,
        EmbCnt::one_view().count == 1,
        EmbCnt::zero_view().embedding.len() == DIM,
        EmbCnt::one_view().embedding.len() == DIM,
        EmbCnt::zero_view().embedding[i] == 0,
        EmbCnt::one_view().embedding[i] == 1,
        EmbCnt::clear_aux_view(a).count == a.count,
        EmbCnt::clear_aux_view(a).embedding.len() == 0,
        EmbCnt::add_view(a, EmbCnt::clear_aux_view(a)).embedding == a.embedding,
        EmbCnt::sub_view(a, EmbCnt::clear_aux_view(a)).embedding == a.embedding,
        EmbCnt::add_view(EmbCnt::clear_aux_view(a), a).embedding.len() == 0,
{
    assert(EmbCnt::add_view(a, EmbCnt::clear_aux_view(a)).embedding =~= a.embedding);
    assert(EmbCnt::sub_view(a, EmbCnt::clear_aux_view(a)).embedding =~= a.embedding);
}

/// A payload is a pair, and the operations work on each half.
pub proof fn law_payload_operations(a: (EmbView, int), b: (EmbView, int))
    ensures
        EmbCnt::valid(a.0) == (0 <= a.0.count < MODULUS && a.0.embedding.len() == DIM),
        Payload::valid(a) == (EmbCnt::valid(a.0) && 0 <= a.1 < MODULUS),
        Payload::zero_view() == (EmbCnt::zero_view(), 0int),
        Payload::one_view() == (EmbCnt::one_view(), 1int),
        Payload::add_view(a, b) == (EmbCnt::add_view(a.0, b.0), field(a.1 + b.1)),
        Payload::sub_view(a, b) == (EmbCnt::sub_view(a.0, b.0), field(a.1 - b.1)),
        Payload::neg_view(a) == (EmbCnt::neg_view(a.0), field(-a.1)),
        Payload::clear_aux_view(a) == (EmbCnt::clear_aux_view(a.0), a.1),
        Payload::value_view(a) == 0,
{
}

/// A count is drawn first, then for a payload its code, and the embedding last: its components are
/// the 32-bit words of the blocks that follow, 96 of them.
pub proof fn law_drawn_in_order(s: StreamView, i: int)
    requires
        0 <= i < DIM,
    ensures
        u64::drawn(s) == s.word(),
        u64::drawn_rest(s) == s.ahead(1),
        u64::drawn_no_aux_rest(s) == s.ahead(1),
        FE::drawn(s) == fe_drawn(s),
        FE::drawn_rest(s) == fe_rest(s),
        FE::drawn_no_aux_rest(s) == fe_rest(s),
        EmbCnt::drawn(s).count == fe_drawn(s),
        EmbCnt::drawn(s).embedding.len() == DIM,
        EmbCnt::drawn(s).embedding[i] == fe_rest(s).word32(i),
        EmbCnt::drawn_rest(s) == fe_rest(s).ahead(96),
        EmbCnt::drawn_no_aux_rest(s) == fe_rest(s),
        Payload::drawn(s).0.count == fe_drawn(s),
        Payload::drawn(s).1 == fe_drawn(fe_rest(s)),
        Payload::drawn(s).0.embedding.len() == DIM,
        Payload::drawn(s).0.embedding[i] == fe_rest(fe_rest(s)).word32(i),
        Payload::drawn_rest(s) == fe_rest(fe_rest(s)).ahead(96),
        Payload::drawn_no_aux_rest(s) == fe_rest(fe_rest(s)),
{
}

} // verus!
