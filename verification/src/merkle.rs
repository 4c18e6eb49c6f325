//! Merkle trees over the proofs of the clients.
use rs_merkle::Hasher;
use rs_merkle::MerkleTree;
use vstd::prelude::*;

use crate::consts::XOF_SIZE;
use crate::hash::{short_digest, short_hash};

verus! {

/// The hash function of the tree: BLAKE3, cut to the length of a proof.
#[derive(Clone)]
pub struct HashAlg {}

impl Hasher for HashAlg {
    type Hash = [u8; XOF_SIZE];

    fn hash(data: &[u8]) -> (r: [u8; XOF_SIZE])
        ensures
            r@ == short_digest(data@),
    {
        let r = short_hash(data, &[]);
        assert(data@ + Seq::<u8>::empty() =~= data@);
        r
    }
}

/// The layer above `layer`: neighbours are hashed together, and a last node without a neighbour
/// moves up as it is.
pub open spec fn layer_above(layer: Seq<Seq<u8>>) -> Seq<Seq<u8>> {
    Seq::new(
        ((layer.len() + 1) / 2) as nat,
        |i: int|
            if 2 * i + 1 < layer.len() {
                short_digest(layer[2 * i] + layer[2 * i + 1])
            } else {
                layer[2 * i]
            },
    )
}

/// The single node that is left at the top of the tree over `leaves`.
pub open spec fn tree_root(leaves: Seq<Seq<u8>>) -> Seq<u8>
    decreases leaves.len(),
{
    if leaves.len() <= 1 {
        leaves[0]
    } else {
        tree_root(layer_above(leaves))
    }
}

/// The bytes of each of a list of proofs.
pub open spec fn proof_views(proofs: Seq<[u8; XOF_SIZE]>) -> Seq<Seq<u8>> {
    proofs.map_values(|p: [u8; XOF_SIZE]| p@)
}

/// Calls `MerkleTree::<HashAlg>::from_leaves` and `MerkleTree::root`.
///
/// Trusted: the root is found by going up layer by layer, where two neighbours are concatenated and
/// hashed with `HashAlg` and a node without a right neighbour is passed on, as
/// `rs_merkle::Hasher::concat_and_hash` documents it. No leaves, of which there is no root, are left
/// out.
#[verifier::external_body]
pub(crate) fn merkle_root(leaves: &[[u8; XOF_SIZE]]) -> (root: [u8; XOF_SIZE])
    requires
        leaves@.len() > 0,
    ensures
        root@ == tree_root(proof_views(leaves@)),
{
    MerkleTree::<HashAlg>::from_leaves(leaves).root().unwrap()
}

} // verus!
