use vstd::prelude::*;

use crate::consts::XOF_SIZE;

verus! {

/// The 32-byte BLAKE3 digest of `input`.
pub uninterp spec fn blake3_digest(input: Seq<u8>) -> [u8; 32];

/// Calls `blake3::Hasher`: a fresh hasher is fed `first` and then `second`, and finalized.
///
/// Trusted: the digest is a function of the bytes fed, in their order, however they are divided
/// among calls of `update_rayon`.
#[verifier::external_body]
pub(crate) fn digest(first: &[u8], second: &[u8]) -> (out: [u8; 32])
    ensures
        out == blake3_digest(first@ + second@),
{
    let mut hasher = blake3::Hasher::new();
    hasher.update_rayon(first);
    hasher.update_rayon(second);
    *hasher.finalize().as_bytes()
}

/// The leading bytes of the digest of `input`.
pub open spec fn short_digest(input: Seq<u8>) -> Seq<u8> {
    blake3_digest(input)@.take(XOF_SIZE as int)
}

/// Hashes `first` followed by `second` and keeps the leading bytes.
pub fn short_hash(first: &[u8], second: &[u8]) -> (out: [u8; XOF_SIZE])
    ensures
        out@ == short_digest(first@ + second@),
{
    let full = digest(first, second);
    let mut out = [0u8; XOF_SIZE];
    for i in 0..XOF_SIZE
        invariant
            forall|j: int| 0 <= j < i ==> out@[j] == full@[j],
    {
        out[i] = full[i];
    }
    assert(out@ =~= full@.take(XOF_SIZE as int));
    out
}

} // verus!
