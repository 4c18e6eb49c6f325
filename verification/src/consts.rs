use vstd::prelude::*;

verus! {

/// Number of bytes kept of every hash and proof.
pub const XOF_SIZE: usize = 16;

/// Number of bytes in a seed of the pseudorandom generator.
pub const SEED_SIZE: usize = 16;

/// Number of components in an embedding.
pub const DIM: usize = 768;

/// Multiplications that the sketch check of one level consumes: one for the zero-or-one test and
/// two for the message authentication code.
pub const TRIPLES_PER_LEVEL: usize = 3;

} // verus!
