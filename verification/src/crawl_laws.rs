//! What the steps of a collection do to clients, nodes and proofs.
use vstd::arithmetic::div_mod::{
    lemma_div_non_zero, lemma_fundamental_div_mod, lemma_fundamental_div_mod_converse,
};
use vstd::prelude::*;

use crate::collect::{
    alive_indices, can_crawl, can_expand, child_node, children, chunk, chunk_count, client_codes,
    client_counts, combined_proof,
    crawl_chunk_size, crawl_view, empty_collection, halves, is_suspect, joined, judged, kept,
    leaf_count, live_proofs, live_sum, node_values, root_node, shares_view, window, CollectionView,
    KeysView, NodeView, ResultView,
};
use crate::collect_laws::{law_leaf_count, law_undivided_tree};
use crate::consts::{DIM, XOF_SIZE};
use crate::dpf::{eval_state, eval_word, in_domain, label};
use crate::emb_cnt::EmbCnt;
use crate::field::field;
use crate::group::Group;
use crate::merkle::tree_root;
use crate::prg::StreamView;
use crate::sketch::{Payload, SketchKeyView};

verus! {

/// The places of the live ones among the first `n` clients are all of them, each once, in order.
pub proof fn law_alive(keys: KeysView, n: nat)
    requires
        n <= keys.len(),
    ensures
        forall|p: int, q: int|
            0 <= p < q < alive_indices(keys, n).len() ==> #[trigger] alive_indices(keys, n)[p]
                < #[trigger] alive_indices(keys, n)[q],
        forall|p: int|
            0 <= p < alive_indices(keys, n).len() ==> 0 <= #[trigger] alive_indices(keys, n)[p] < n
                && keys[alive_indices(keys, n)[p]].0,
        forall|i: int|
            0 <= i < n && (#[trigger] keys[i]).0 ==> alive_indices(keys, n).contains(i),
    decreases n,
{
    if n > 0 {
        law_alive(keys, (n - 1) as nat);
        let before = alive_indices(keys, (n - 1) as nat);
        let all = alive_indices(keys, n);
        assert forall|i: int| 0 <= i < n && (#[trigger] keys[i]).0 implies all.contains(i) by {
            if i == n - 1 {
                assert(all[all.len() - 1] == i);
            } else {
                assert(before.contains(i));
                let p = choose|p: int| 0 <= p < before.len() && before[p] == i;
                assert(all[p] == i);
            }
        }
    }
}

/// At the last step of the search every client at one of the given places among the live clients is
/// taken out, everyone else stays as before, and no key changes.
pub proof fn law_suspects_taken_out(
    v: CollectionView,
    split_by: usize,
    malicious: Seq<usize>,
)
    ensures
        ({
            let alive = alive_indices(v.keys, v.keys.len());
            let after = crawl_view(v, split_by, malicious, true).keys;
            &&& after.len() == v.keys.len()
            &&& forall|m: int|
                0 <= m < malicious.len() && (#[trigger] malicious[m]) < alive.len()
                    ==> !after[alive[malicious[m] as int]].0
            &&& forall|i: int|
                0 <= i < v.keys.len() && (forall|m: int|
                    0 <= m < malicious.len() && (#[trigger] malicious[m]) < alive.len()
                        ==> alive[malicious[m] as int] != i) ==> (#[trigger] after[i]).0
                    == v.keys[i].0
            &&& forall|i: int| 0 <= i < v.keys.len() ==> (#[trigger] after[i]).1 == v.keys[i].1
        }),
{
    let alive = alive_indices(v.keys, v.keys.len());
    let after = crawl_view(v, split_by, malicious, true).keys;
    law_alive(v.keys, v.keys.len());
    assert forall|m: int|
        0 <= m < malicious.len() && (#[trigger] malicious[m]) < alive.len() implies !after[
    alive[malicious[m] as int]].0 by {
        assert(is_suspect(v.keys, malicious, alive[malicious[m] as int]));
    }
    assert forall|i: int|
        0 <= i < v.keys.len() && (forall|m: int|
            0 <= m < malicious.len() && (#[trigger] malicious[m]) < alive.len()
                ==> alive[malicious[m] as int] != i) implies (#[trigger] after[i]).0
        == v.keys[i].0 by {
        assert(!is_suspect(v.keys, malicious, i));
    }
}

/// Before the last step, and where there are no suspects, a crawl leaves all clients as they are.
pub proof fn law_crawl_spares_clients(
    v: CollectionView,
    split_by: usize,
    malicious: Seq<usize>,
    is_last: bool,
)
    requires
        !is_last || malicious.len() == 0,
    ensures
        crawl_view(v, split_by, malicious, is_last).keys == v.keys,
{
}

/// A client whose verdict is false is no longer live, one whose verdict is true stays as before, and
/// no key changes.
pub proof fn law_verdicts(keys: KeysView, verdicts: Seq<bool>, i: int)
    requires
        verdicts.len() == keys.len(),
        0 <= i < keys.len(),
    ensures
        judged(keys, verdicts).len() == keys.len(),
        !verdicts[i] ==> !judged(keys, verdicts)[i].0,
        verdicts[i] ==> judged(keys, verdicts)[i].0 == keys[i].0,
        judged(keys, verdicts)[i].1 == keys[i].1,
{
}

/// Of every suspected chunk both halves are looked at, the right one wherever it exists, and nothing
/// else is.
pub proof fn law_halves_complete(suspects: Seq<usize>, count: nat, n: nat)
    requires
        n <= suspects.len(),
        count <= usize::MAX,
        forall|m: int| 0 <= m < suspects.len() ==> 2 * (#[trigger] suspects[m]) < count,
    ensures
        forall|m: int|
            0 <= m < n ==> halves(suspects, count, n).contains((2 * #[trigger] suspects[m]) as usize),
        forall|m: int|
            0 <= m < n && 2 * (#[trigger] suspects[m]) + 1 < count ==> halves(
                suspects,
                count,
                n,
            ).contains((2 * suspects[m] + 1) as usize),
        forall|q: int|
            0 <= q < halves(suspects, count, n).len() ==> half_of_some(
                suspects,
                count,
                n,
                #[trigger] halves(suspects, count, n)[q] as int,
            ),
    decreases n,
{
    if n > 0 {
        let before = halves(suspects, count, (n - 1) as nat);
        let all = halves(suspects, count, n);
        law_halves_complete(suspects, count, (n - 1) as nat);
        let i = suspects[n - 1];
        assert(2 * i < count);
        let k = before.len() as int;
        assert(all[k] == 2 * i);
        assert(forall|q: int| 0 <= q < k ==> #[trigger] all[q] == before[q]);
        assert forall|m: int| 0 <= m < n implies all.contains((2 * #[trigger] suspects[m]) as usize) by {
            if m < n - 1 {
                let x = (2 * suspects[m]) as usize;
                assert(before.contains(x));
                let q = choose|q: int| 0 <= q < before.len() && before[q] == x;
                assert(all[q] == x);
            }
        }
        assert forall|m: int|
            0 <= m < n && 2 * (#[trigger] suspects[m]) + 1 < count implies all.contains(
            (2 * suspects[m] + 1) as usize,
        ) by {
            let x = (2 * suspects[m] + 1) as usize;
            if m < n - 1 {
                assert(before.contains(x));
                let q = choose|q: int| 0 <= q < before.len() && before[q] == x;
                assert(all[q] == x);
            } else {
                assert(all[k + 1] == x);
            }
        }
        assert forall|q: int| 0 <= q < all.len() implies half_of_some(
            suspects,
            count,
            n,
            #[trigger] all[q] as int,
        ) by {
            if q < k {
                assert(half_of_some(suspects, count, (n - 1) as nat, before[q] as int));
                let m = choose|m: int|
                    0 <= m < n - 1 && (before[q] as int == 2 * (#[trigger] suspects[m])
                        || before[q] as int == 2 * suspects[m] + 1);
                assert(0 <= m < n && (all[q] as int == 2 * suspects[m] || all[q] as int == 2
                    * suspects[m] + 1));
            } else {
                assert(all[q] as int == 2 * suspects[n - 1] || all[q] as int == 2 * suspects[n - 1]
                    + 1);
            }
        }
    }
}

/// Whether chunk `x` exists and is a half of one of the first `n` suspects.
pub open spec fn half_of_some(suspects: Seq<usize>, count: nat, n: nat, x: int) -> bool {
    &&& x < count
    &&& exists|m: int|
        0 <= m < n && (x == 2 * (#[trigger] suspects[m]) || x == 2 * suspects[m] + 1)
}

/// The halves of one more suspect come behind those of the others, the left one first.
pub proof fn law_halves_in_order(suspects: Seq<usize>, count: nat, i: usize)
    requires
        2 * i < count <= usize::MAX,
    ensures
        halves(suspects.push(i), count, suspects.len() + 1) == halves(
            suspects,
            count,
            suspects.len(),
        ) + if 2 * i + 1 < count {
            seq![(2 * i) as usize, (2 * i + 1) as usize]
        } else {
            seq![(2 * i) as usize]
        },
        halves(Seq::empty(), count, 0).len() == 0,
{
    lemma_halves_prefix(suspects, i, count, suspects.len());
    let before = halves(suspects, count, suspects.len());
    assert(halves(suspects.push(i), count, suspects.len() + 1) =~= before + if 2 * i + 1 < count {
        seq![(2 * i) as usize, (2 * i + 1) as usize]
    } else {
        seq![(2 * i) as usize]
    });
}

/// Later suspects do not change the halves of earlier ones.
proof fn lemma_halves_prefix(suspects: Seq<usize>, i: usize, count: nat, n: nat)
    requires
        n <= suspects.len(),
    ensures
        halves(suspects.push(i), count, n) == halves(suspects, count, n),
    decreases n,
{
    if n > 0 {
        lemma_halves_prefix(suspects, i, count, (n - 1) as nat);
    }
}

/// While the search goes on, a crawl computes the roots of exactly the halves of the suspected
/// chunks: of every one the left half, and the right half wherever it exists.
pub proof fn law_search_looks_at_halves(
    v: CollectionView,
    split_by: usize,
    malicious: Seq<usize>,
    m: int,
)
    requires
        can_crawl(v, split_by, malicious, false),
        split_by > 1,
        0 <= m < malicious.len(),
    ensures
        ({
            let next = crawl_view(v, split_by, malicious, false);
            let live = live_proofs(next.keys, next.frontier).len();
            let size = leaf_count(live) / (split_by as nat);
            let count = chunk_count(live, size);
            &&& next.indices == halves(malicious, count, malicious.len())
            &&& next.indices.contains((2 * malicious[m]) as usize)
            &&& 2 * malicious[m] + 1 < count ==> next.indices.contains(
                (2 * malicious[m] + 1) as usize,
            )
            &&& forall|q: int|
                0 <= q < next.indices.len() ==> half_of_some(
                    malicious,
                    count,
                    malicious.len(),
                    #[trigger] next.indices[q] as int,
                )
        }),
{
    let keys = v.keys;
    let live = alive_indices(keys, keys.len()).len();
    let size = crawl_chunk_size(keys, split_by as nat);
    law_leaf_count(live);
    law_alive_bound(keys, keys.len());
    lemma_size_positive(leaf_count(live), split_by as nat);
    law_chunks(live, size);
    assert(chunk_count(live, size) <= usize::MAX) by {
        assert(chunk_count(live, size) <= live);
    }
    law_halves_complete(malicious, chunk_count(live, size), malicious.len());
}

/// There are no more live clients than clients.
pub proof fn law_alive_bound(keys: KeysView, n: nat)
    ensures
        alive_indices(keys, n).len() <= n,
    decreases n,
{
    if n > 0 {
        law_alive_bound(keys, (n - 1) as nat);
    }
}

/// A split into no more parts than there are leaves leaves something for each.
proof fn lemma_size_positive(leaves: nat, split: nat)
    requires
        1 <= split <= leaves,
    ensures
        leaves / split >= 1,
{
    lemma_div_non_zero(leaves as int, split as int);
}

/// The chunks take up all proofs: all but the last are full, and the last is not empty.
pub proof fn law_chunks(n: nat, size: nat)
    requires
        size >= 1,
    ensures
        n <= chunk_count(n, size) * size,
        n > 0 ==> (chunk_count(n, size) - 1) * size < n,
        n == 0 ==> chunk_count(n, size) == 0,
        chunk_count(n, size) <= n,
{
    let (a, s) = (n as int, size as int);
    let q = (a + s - 1) / s;
    lemma_fundamental_div_mod(a + s - 1, s);
    assert(a <= q * s && (q - 1) * s < a || a == 0) by (nonlinear_arith)
        requires
            a + s - 1 < s * q + s,
            s * q <= a + s - 1,
            s >= 1,
            a >= 0,
    ;
    assert(q >= 0) by (nonlinear_arith)
        requires
            a + s - 1 < s * q + s,
            s >= 1,
            a >= 0,
    ;
    if n == 0 {
        lemma_fundamental_div_mod_converse(s - 1, s, 0, s - 1);
    } else {
        assert(q <= a) by (nonlinear_arith)
            requires
                (q - 1) * s < a,
                s >= 1,
                a >= 1,
        ;
    }
}

/// A chunk holds the proofs from its place on, as many as its size says or as there are.
pub proof fn law_chunk(proofs: Seq<Seq<u8>>, size: nat, j: int, k: int)
    requires
        size >= 1,
        0 <= j < chunk_count(proofs.len(), size),
    ensures
        0 < chunk(proofs, size, j).len() <= size,
        j < chunk_count(proofs.len(), size) - 1 ==> chunk(proofs, size, j).len() == size,
        j * size + chunk(proofs, size, j).len() <= proofs.len(),
        j == chunk_count(proofs.len(), size) - 1 ==> j * size + chunk(proofs, size, j).len()
            == proofs.len(),
        0 <= k < chunk(proofs, size, j).len() ==> chunk(proofs, size, j)[k] == proofs[j * size + k],
{
    let n = proofs.len();
    let count = chunk_count(n, size) as int;
    let s = size as int;
    law_chunks(n, size);
    assert(j * s <= (count - 1) * s && (j + 1) * s == j * s + s && (count - 1) * s == count * s - s
        && 0 <= j * s) by (nonlinear_arith)
        requires
            0 <= j < count,
            s >= 1,
    ;
    if j < count - 1 {
        assert((j + 1) * s <= (count - 1) * s) by (nonlinear_arith)
            requires
                j < count - 1,
                s >= 1,
        ;
    } else {
        assert((j + 1) * s == count * s);
    }
}

/// A node that comes later does not change what the earlier ones combine to.
proof fn lemma_combined_prefix(nodes: Seq<NodeView>, x: NodeView, i: int, n: nat)
    requires
        n <= nodes.len(),
    ensures
        combined_proof(nodes.push(x), i, n) == combined_proof(nodes, i, n),
    decreases n,
{
    if n > 0 {
        lemma_combined_prefix(nodes, x, i, (n - 1) as nat);
    }
}

/// Over no nodes a client's combined proof is zero, and every further node's proof is exclusive-ored
/// into it, byte by byte.
pub proof fn law_combined_proof(nodes: Seq<NodeView>, x: NodeView, i: int, b: int)
    requires
        x.states[i].proof.len() == XOF_SIZE,
        0 <= b < XOF_SIZE,
    ensures
        combined_proof(nodes, i, nodes.len()).len() == XOF_SIZE,
        combined_proof(Seq::empty(), i, 0)[b] == 0,
        combined_proof(nodes.push(x), i, nodes.len() + 1)[b] == combined_proof(
            nodes,
            i,
            nodes.len(),
        )[b] ^ x.states[i].proof[b],
{
    lemma_combined_prefix(nodes, x, i, nodes.len());
    lemma_combined_len(nodes, i, nodes.len());
}

proof fn lemma_combined_len(nodes: Seq<NodeView>, i: int, n: nat)
    ensures
        combined_proof(nodes, i, n).len() == XOF_SIZE,
    decreases n,
{
    if n > 0 {
        lemma_combined_len(nodes, i, (n - 1) as nat);
    }
}

/// The leaves of the Merkle trees are the live clients' proofs over all nodes, in the clients' order.
pub proof fn law_leaves(keys: KeysView, nodes: Seq<NodeView>, p: int)
    requires
        0 <= p < alive_indices(keys, keys.len()).len(),
    ensures
        live_proofs(keys, nodes).len() == alive_indices(keys, keys.len()).len(),
        live_proofs(keys, nodes)[p] == combined_proof(
            nodes,
            alive_indices(keys, keys.len())[p],
            nodes.len(),
        ),
{
}

/// The children of a frontier are, node by node, the left child and then the right child.
pub proof fn law_children_in_order(keys: KeysView, frontier: Seq<NodeView>, j: int)
    requires
        0 <= j < frontier.len(),
    ensures
        children(keys, frontier).len() == 2 * frontier.len(),
        children(keys, frontier)[2 * j] == child_node(keys, frontier[j], false),
        children(keys, frontier)[2 * j + 1] == child_node(keys, frontier[j], true),
{
    assert((2 * j) / 2 == j && (2 * j) % 2 == 0);
    assert((2 * j + 1) / 2 == j && (2 * j + 1) % 2 == 1);
}

/// A child's path is the parent's with the direction behind it. For every client it holds the state
/// that the client's key steps to under the name of that path, and of the payload share there the
/// count and the code, without the embedding.
pub proof fn law_child(keys: KeysView, parent: NodeView, dir: bool, i: int)
    requires
        0 <= i < keys.len(),
    ensures
        ({
            let child = child_node(keys, parent, dir);
            let key = keys[i].1.key;
            let word = eval_word::<Payload>(key, parent.states[i], dir, true);
            &&& child.path == parent.path.push(dir)
            &&& child.states.len() == keys.len()
            &&& child.states[i] == eval_state(
                key,
                parent.states[i],
                dir,
                label(parent.path.push(dir)),
            )
            &&& child.values.len() == keys.len()
            &&& child.values[i].0.count == word.0.count
            &&& child.values[i].0.embedding.len() == 0
            &&& child.values[i].1 == word.1
        }),
{
}

/// A later client does not change what the earlier ones add up to.
proof fn lemma_live_sum_prefix(keys: KeysView, more: KeysView, node: NodeView, dir: bool, n: nat)
    requires
        n <= keys.len() <= more.len(),
        keys == more.take(keys.len() as int),
    ensures
        live_sum(more, node, dir, n) == live_sum(keys, node, dir, n),
    decreases n,
{
    if n > 0 {
        lemma_live_sum_prefix(keys, more, node, dir, (n - 1) as nat);
        assert(more.take(keys.len() as int)[n - 1] == more[n - 1]);
    }
}

/// Without clients a node's value is zero. One more client adds the count and, component by
/// component modulo 2^32, the embedding of the client's share where the client is live, and nothing
/// otherwise.
pub proof fn law_node_value_grows(
    keys: KeysView,
    key: (bool, SketchKeyView),
    parent: NodeView,
    dir: bool,
    b: int,
)
    requires
        0 <= b < DIM,
        child_node(keys, parent, dir).value.embedding.len() == DIM,
        eval_word::<Payload>(key.1.key, parent.states[keys.len() as int], dir, true).0.embedding.len()
            == DIM,
    ensures
        ({
            let more = keys.push(key);
            let value = child_node(keys, parent, dir).value;
            let grown = child_node(more, parent, dir).value;
            let share = eval_word::<Payload>(
                key.1.key,
                parent.states[keys.len() as int],
                dir,
                true,
            ).0;
            let none = child_node(Seq::empty(), parent, dir).value;
            &&& none.count == 0
            &&& none.embedding.len() == DIM
            &&& none.embedding[b] == 0
            &&& !key.0 ==> grown == value
            &&& key.0 ==> grown.count == field(value.count + share.count)
            &&& key.0 ==> grown.embedding.len() == DIM
            &&& key.0 ==> grown.embedding[b] as int == (value.embedding[b] + share.embedding[b])
                % 0x1_0000_0000
        }),
{
    let more = keys.push(key);
    assert(keys =~= more.take(keys.len() as int));
    lemma_live_sum_prefix(keys, more, parent, dir, keys.len());
    assert(more[keys.len() as int] == key);
}

/// The root is the empty prefix. Before anything was evaluated its values are zero.
pub proof fn law_root_node(keys: KeysView, i: int)
    requires
        0 <= i < keys.len(),
    ensures
        root_node(keys).path.len() == 0,
        root_node(keys).value.count == 0,
        root_node(keys).states.len() == keys.len(),
        root_node(keys).states[i].level == 0,
        root_node(keys).states[i].seed == keys[i].1.key.root_seed,
        root_node(keys).states[i].bit == keys[i].1.key.key_idx,
        root_node(keys).states[i].proof == Seq::new(XOF_SIZE as nat, |b: int| 0u8),
        root_node(keys).values.len() == keys.len(),
        root_node(keys).values[i].0.count == 0,
        root_node(keys).values[i].1 == 0,
{
}

/// A new collection is empty.
pub proof fn law_new_collection(depth: nat, stream: StreamView)
    ensures
        empty_collection(depth, stream).depth == depth,
        empty_collection(depth, stream).stream == stream,
        empty_collection(depth, stream).keys.len() == 0,
        empty_collection(depth, stream).frontier.len() == 0,
        empty_collection(depth, stream).prev_frontier.len() == 0,
        empty_collection(depth, stream).final_proofs.len() == 0,
        empty_collection(depth, stream).roots.len() == 0,
        empty_collection(depth, stream).indices.len() == 0,
{
}

/// A crawl goes on from the frontier, or with suspects from the previous one again, and keeps where
/// it started from. Every root is the one of the chunk of live proofs at its index, and what a crawl
/// has no part in stays.
pub proof fn law_crawl(
    v: CollectionView,
    split_by: usize,
    malicious: Seq<usize>,
    is_last: bool,
)
    ensures
        ({
            let next = crawl_view(v, split_by, malicious, is_last);
            let proofs = live_proofs(next.keys, next.frontier);
            let split = if is_last {
                1nat
            } else {
                split_by as nat
            };
            let size = leaf_count(proofs.len()) / split;
            &&& malicious.len() > 0 ==> next.prev_frontier == v.prev_frontier
            &&& malicious.len() == 0 ==> next.prev_frontier == v.frontier
            &&& next.frontier == children(next.keys, next.prev_frontier)
            &&& next.roots.len() == next.indices.len()
            &&& forall|m: int|
                0 <= m < next.indices.len() ==> #[trigger] next.roots[m] == tree_root(
                    chunk(proofs, size, next.indices[m] as int),
                )
            &&& next.depth == v.depth
            &&& next.stream == v.stream
            &&& next.final_proofs == v.final_proofs
        }),
{
}

/// An undivided crawl, and the last one in any case, computes a single root: that of the tree over
/// all live clients' proofs.
pub proof fn law_undivided_crawl(
    v: CollectionView,
    split_by: usize,
    malicious: Seq<usize>,
    is_last: bool,
)
    requires
        is_last || split_by == 1,
    ensures
        ({
            let next = crawl_view(v, split_by, malicious, is_last);
            &&& next.indices == seq![0usize]
            &&& next.roots == seq![tree_root(live_proofs(next.keys, next.frontier))]
        }),
{
    let next = crawl_view(v, split_by, malicious, is_last);
    let proofs = live_proofs(next.keys, next.frontier);
    law_undivided_tree(proofs);
    let size = leaf_count(proofs.len());
    assert(size / 1 == size);
    assert(next.roots =~= seq![tree_root(proofs)]);
}

/// A level can always be crawled as a whole while there is a live client and the keys reach on.
pub proof fn law_whole_crawl_possible(v: CollectionView)
    requires
        v.keys.len() <= usize::MAX / 2,
        exists|i: int| 0 <= i < v.keys.len() && (#[trigger] v.keys[i]).0,
        forall|j: int, i: int|
            #![trigger v.frontier[j], v.keys[i]]
            0 <= j < v.frontier.len() && 0 <= i < v.keys.len() ==> i < v.frontier[j].states.len()
                && v.frontier[j].states[i].level < v.keys[i].1.key.cor_words.len()
                && v.frontier[j].states[i].level < v.keys[i].1.key.cs.len(),
    ensures
        can_crawl(v, 1, Seq::empty(), false),
{
    let i = choose|i: int| 0 <= i < v.keys.len() && (#[trigger] v.keys[i]).0;
    law_alive(v.keys, v.keys.len());
    let alive = alive_indices(v.keys, v.keys.len());
    assert(alive.contains(i));
    law_leaf_count(alive.len());
    assert forall|j: int| 0 <= j < v.frontier.len() implies can_expand(
        v.keys,
        #[trigger] v.frontier[j],
    ) by {
        let last = v.keys[v.keys.len() - 1];
        assert(v.keys.len() - 1 < v.frontier[j].states.len());
        assert forall|k: int| 0 <= k < v.keys.len() implies in_domain(
            v.keys[k].1.key,
            #[trigger] v.frontier[j].states[k],
        ) by {
            let key = v.keys[k];
        }
    }
}

/// The values that a crawl hands out are those of the new nodes, in order.
pub proof fn law_node_values_in_order(nodes: Seq<NodeView>, j: int)
    requires
        0 <= j < nodes.len(),
    ensures
        node_values(nodes).len() == nodes.len(),
        node_values(nodes)[j] == nodes[j].value,
        shares_view(nodes).len() == nodes.len(),
        shares_view(nodes)[j].path == nodes[j].path,
        shares_view(nodes)[j].value == nodes[j].value,
{
}

/// A window holds the elements from its start up to its end, and is empty where it ends before.
pub proof fn law_window<A>(s: Seq<A>, start: int, end: int, k: int)
    requires
        0 <= start,
        end <= s.len(),
    ensures
        start < end ==> window(s, start, end).len() == end - start,
        start >= end ==> window(s, start, end).len() == 0,
        0 <= k < end - start ==> window(s, start, end)[k] == s[start + k],
{
}

/// One more element comes behind what was kept of the others where its flag is set, and falls away
/// otherwise.
pub proof fn law_kept_grows<A>(s: Seq<A>, flags: Seq<bool>, x: A, flag: bool)
    requires
        s.len() == flags.len(),
    ensures
        kept(s.push(x), flags.push(flag), 0) == if flag {
            kept(s, flags, 0).push(x)
        } else {
            kept(s, flags, 0)
        },
        kept(Seq::<A>::empty(), Seq::empty(), 0).len() == 0,
{
    lemma_kept_grows(s, flags, x, flag, 0);
}

proof fn lemma_kept_grows<A>(s: Seq<A>, flags: Seq<bool>, x: A, flag: bool, i: int)
    requires
        s.len() == flags.len(),
        0 <= i <= s.len(),
    ensures
        kept(s.push(x), flags.push(flag), i) == if flag {
            kept(s, flags, i).push(x)
        } else {
            kept(s, flags, i)
        },
    decreases s.len() - i,
{
    let (s1, f1) = (s.push(x), flags.push(flag));
    if i < s.len() {
        lemma_kept_grows(s, flags, x, flag, i + 1);
        assert(s1[i] == s[i] && f1[i] == flags[i]);
        if flags[i] {
            assert(kept(s1, f1, i) =~= seq![s[i]] + kept(s1, f1, i + 1));
            if flag {
                assert(kept(s1, f1, i) =~= kept(s, flags, i).push(x));
            }
        }
    } else {
        assert(kept(s1, f1, i + 1) =~= Seq::empty());
        assert(s1[i] == x && f1[i] == flag);
        assert(kept(s, flags, i) =~= Seq::empty());
        if flag {
            assert(kept(s1, f1, i) =~= seq![x]);
            assert(kept(s, flags, i).push(x) =~= seq![x]);
        }
    }
}

/// One more pair of shares comes behind the others, with the sum of the two values at the first
/// server's path, where the sum's count is positive, and falls away otherwise.
pub proof fn law_joined_grows(
    results_0: Seq<ResultView>,
    results_1: Seq<ResultView>,
    x: ResultView,
    y: ResultView,
)
    requires
        results_0.len() == results_1.len(),
        EmbCnt::valid(x.value),
        EmbCnt::valid(y.value),
    ensures
        ({
            let before = joined(results_0, results_1, results_0.len());
            let after = joined(
                results_0.push(x),
                results_1.push(y),
                results_0.len() + 1,
            );
            let count = field(x.value.count + y.value.count);
            &&& count == 0 ==> after == before
            &&& count > 0 ==> after.len() == before.len() + 1
            &&& count > 0 ==> after.drop_last() == before
            &&& count > 0 ==> after.last().path == x.path
            &&& count > 0 ==> after.last().value.count == count
            &&& count > 0 ==> after.last().value.embedding.len() == DIM
            &&& count > 0 ==> forall|b: int|
                0 <= b < DIM ==> (#[trigger] after.last().value.embedding[b]) as int == (
                x.value.embedding[b] + y.value.embedding[b]) % 0x1_0000_0000
            &&& joined(Seq::empty(), Seq::empty(), 0).len() == 0
        }),
{
    lemma_joined_prefix(results_0, results_1, x, y, results_0.len());
    let after = joined(results_0.push(x), results_1.push(y), results_0.len() + 1);
    let before = joined(results_0, results_1, results_0.len());
    let zero = EmbCnt::zero_view();
    EmbCnt::lemma_inverse(x.value, x.value);
    EmbCnt::lemma_commutative(zero, x.value);
    assert(results_0.push(x)[results_0.len() as int] == x);
    assert(results_1.push(y)[results_0.len() as int] == y);
    if field(x.value.count + y.value.count) > 0 {
        assert(after.drop_last() =~= before);
    }
}

proof fn lemma_joined_prefix(
    results_0: Seq<ResultView>,
    results_1: Seq<ResultView>,
    x: ResultView,
    y: ResultView,
    n: nat,
)
    requires
        results_0.len() == results_1.len(),
        n <= results_0.len(),
    ensures
        joined(results_0.push(x), results_1.push(y), n) == joined(results_0, results_1, n),
    decreases n,
{
    if n > 0 {
        lemma_joined_prefix(results_0, results_1, x, y, (n - 1) as nat);
    }
}

/// A level can be crawled wherever the keys reach one level on from where the crawl starts, the live
/// clients' leaves divide into the chunks asked for, and the suspected chunks exist.
pub proof fn law_crawl_possible(
    v: CollectionView,
    split_by: usize,
    malicious: Seq<usize>,
    is_last: bool,
)
    requires
        ({
            let next = crawl_view(v, split_by, malicious, is_last);
            let live = live_proofs(next.keys, next.frontier).len();
            let split = if is_last {
                1nat
            } else {
                split_by as nat
            };
            let size = leaf_count(live) / split;
            &&& v.keys.len() <= usize::MAX / 2
            &&& live > 0
            &&& 1 <= split <= leaf_count(live)
            &&& split > 1 ==> forall|m: int|
                0 <= m < malicious.len() ==> 2 * (#[trigger] malicious[m]) < chunk_count(live, size)
            &&& forall|j: int, i: int|
                #![trigger next.prev_frontier[j], v.keys[i]]
                0 <= j < next.prev_frontier.len() && 0 <= i < v.keys.len() ==> i
                    < next.prev_frontier[j].states.len() && next.prev_frontier[j].states[i].level
                    < v.keys[i].1.key.cor_words.len() && next.prev_frontier[j].states[i].level
                    < v.keys[i].1.key.cs.len()
        }),
    ensures
        can_crawl(v, split_by, malicious, is_last),
{
    let next = crawl_view(v, split_by, malicious, is_last);
    let start = next.prev_frontier;
    law_alive_bound(next.keys, next.keys.len());
    assert(next.keys.len() > 0);
    assert forall|j: int| 0 <= j < start.len() implies can_expand(
        next.keys,
        #[trigger] start[j],
    ) by {
        let last = v.keys[v.keys.len() - 1];
        assert(v.keys.len() - 1 < start[j].states.len());
        assert forall|k: int| 0 <= k < next.keys.len() implies in_domain(
            next.keys[k].1.key,
            #[trigger] start[j].states[k],
        ) by {
            let key = v.keys[k];
        }
    }
}

/// The vector that is sketched for a client holds, node by node, the client's count and code there.
pub proof fn law_client_vector(frontier: Seq<NodeView>, i: int, j: int)
    requires
        0 <= j < frontier.len(),
    ensures
        client_counts(frontier, i).len() == frontier.len(),
        client_counts(frontier, i)[j] == frontier[j].values[i].0.count,
        client_codes(frontier, i).len() == frontier.len(),
        client_codes(frontier, i)[j] == frontier[j].values[i].1,
{
}

/// What lies beyond the flags stays behind what was kept.
pub proof fn law_kept_beyond_flags<A>(s: Seq<A>, t: Seq<A>, flags: Seq<bool>, i: int)
    requires
        s.len() == flags.len(),
        0 <= i <= s.len(),
    ensures
        kept(s + t, flags, i) == kept(s, flags, i) + t,
    decreases s.len() - i,
{
    if i < s.len() {
        law_kept_beyond_flags(s, t, flags, i + 1);
        assert((s + t)[i] == s[i]);
        if flags[i] {
            assert(kept(s + t, flags, i) =~= seq![s[i]] + (kept(s, flags, i + 1) + t));
            assert(kept(s + t, flags, i) =~= kept(s, flags, i) + t);
        }
    } else {
        lemma_kept_all(s + t, flags, i);
        assert((s + t).skip(i) =~= t);
        assert(kept(s, flags, i) + t =~= t);
    }
}

proof fn lemma_kept_all<A>(s: Seq<A>, flags: Seq<bool>, i: int)
    requires
        flags.len() <= i <= s.len(),
    ensures
        kept(s, flags, i) == s.skip(i),
    decreases s.len() - i,
{
    if i < s.len() {
        lemma_kept_all(s, flags, i + 1);
        assert(s.skip(i) =~= seq![s[i]] + s.skip(i + 1));
    } else {
        assert(s.skip(i) =~= Seq::empty());
    }
}

} // verus!
