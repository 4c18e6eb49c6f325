//! What a Merkle root is.
use vstd::arithmetic::power2::{lemma2_to64, lemma_pow2_pos, lemma_pow2_unfold, pow2};
use vstd::prelude::*;

use crate::consts::XOF_SIZE;
use crate::hash::blake3_digest;
use crate::merkle::{layer_above, proof_views, tree_root};

verus! {

/// The root of a single leaf is the leaf.
pub proof fn law_single_leaf(leaf: Seq<u8>)
    ensures
        tree_root(seq![leaf]) == leaf,
{
}

/// The root of a tree is the digest of the roots of its two parts, where the left part is a full
/// tree and the right part is no larger.
pub proof fn law_root_of_parts(left: Seq<Seq<u8>>, right: Seq<Seq<u8>>, k: nat)
    requires
        left.len() == pow2(k),
        0 < right.len() <= left.len(),
    ensures
        tree_root(left + right) == blake3_digest(tree_root(left) + tree_root(right))@.take(
            XOF_SIZE as int,
        ),
    decreases k,
{
    lemma2_to64();
    let all = left + right;
    let above = layer_above(all);
    if k == 0 {
        assert(left =~= seq![left[0]]);
        assert(right =~= seq![right[0]]);
        assert(above.len() == 1);
        reveal_with_fuel(tree_root, 2);
        assert(tree_root(all) == above[0]);
    } else {
        let m = (k - 1) as nat;
        lemma_pow2_unfold(k);
        lemma_pow2_pos(m);
        let (left1, right1) = (layer_above(left), layer_above(right));
        assert(above =~= left1 + right1) by {
            assert forall|i: int| 0 <= i < above.len() implies above[i] == (left1 + right1)[i] by {
                if i >= left1.len() {
                    let j = i - left1.len();
                    assert(all[2 * i] == right[2 * j]);
                    if 2 * j + 1 < right.len() {
                        assert(all[2 * i + 1] == right[2 * j + 1]);
                    }
                }
            }
        }
        law_root_of_parts(left1, right1, m);
        if right.len() == 1 {
            assert(right1 =~= right);
        }
    }
}

/// The leaves of a tree are the bytes of the proofs, in order.
pub proof fn law_leaf_bytes(proofs: Seq<[u8; XOF_SIZE]>, p: int)
    requires
        0 <= p < proofs.len(),
    ensures
        proof_views(proofs).len() == proofs.len(),
        proof_views(proofs)[p] == proofs[p]@,
{
}

} // verus!
