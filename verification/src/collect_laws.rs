//! What holds of a collection through its whole life, and what two servers' collections promise
//! together.
use vstd::arithmetic::div_mod::lemma_fundamental_div_mod;
use vstd::arithmetic::power2::{
    lemma2_to64, lemma_pow2_pos, lemma_pow2_strictly_increases, lemma_pow2_unfold, pow2,
};
use vstd::prelude::*;

use crate::collect::{
    alive_indices, can_expand, child_node, child_payload, children, chunk, chunk_count,
    client_codes, client_counts, combined_proof, crawl_keys, crawl_start, crawl_view,
    doubled_up_to, is_suspect, joined, judged, kept, leaf_count, live_proofs, live_sum, root_node,
    shares_view, CollectionView, KeysView, NodeView, ResultView,
};
use crate::dpf::{in_domain, lemma_state_proof_irrelevant, state_at, word_at, zero_proof};
use crate::dpf_laws::{law_proofs_agree, on_path};
use crate::emb_cnt::{EmbCnt, EmbView};
use crate::field::{field, field_mul};
use crate::group::Group;
use crate::prg::StreamView;
use crate::sketch::{authenticated, honest_sketch_pair, joint_mac_key, sketch_view, Payload};
use crate::sketch_laws::{
    law_contribution, law_sketch_accepts, law_sketch_linear, unit_vector, vector_scaled, vector_sum,
};

verus! {

/// Whether a node holds for every key the state at its path and, below the root, the share of the
/// value there.
pub open spec fn tracked_node(keys: KeysView, node: NodeView) -> bool {
    &&& node.states.len() == keys.len()
    &&& node.values.len() == keys.len()
    &&& forall|i: int|
        0 <= i < keys.len() ==> #[trigger] node.states[i] == state_at(
            keys[i].1.key,
            zero_proof(),
            node.path,
        )
    &&& node.path.len() > 0 ==> forall|i: int|
        0 <= i < keys.len() ==> #[trigger] node.values[i] == Payload::clear_aux_view(
            word_at::<Payload>(keys[i].1.key, node.path),
        )
}

/// Whether all nodes of a frontier do so.
pub open spec fn tracked_frontier(keys: KeysView, frontier: Seq<NodeView>) -> bool {
    forall|j: int| 0 <= j < frontier.len() ==> tracked_node(keys, #[trigger] frontier[j])
}

/// The root holds the states at the root.
pub proof fn law_root_tracked(keys: KeysView)
    ensures
        tracked_frontier(keys, seq![root_node(keys)]),
{
}

/// The states and shares at a child are again those at its path.
pub proof fn law_child_tracked(keys: KeysView, parent: NodeView, dir: bool)
    requires
        tracked_node(keys, parent),
    ensures
        tracked_node(keys, child_node(keys, parent, dir)),
{
    let child = child_node(keys, parent, dir);
    let path = parent.path.push(dir);
    assert(path.drop_last() =~= parent.path);
    assert forall|i: int| 0 <= i < keys.len() implies #[trigger] child.states[i] == state_at(
        keys[i].1.key,
        zero_proof(),
        path,
    ) && child.values[i] == Payload::clear_aux_view(word_at::<Payload>(keys[i].1.key, path)) by {
        assert(parent.states[i] == state_at(keys[i].1.key, zero_proof(), parent.path));
    }
}

/// Whether a key is live plays no role for the states and shares that a frontier holds.
pub proof fn law_flags_irrelevant(keys_0: KeysView, keys_1: KeysView, frontier: Seq<NodeView>)
    requires
        keys_0.len() == keys_1.len(),
        forall|i: int| 0 <= i < keys_0.len() ==> (#[trigger] keys_0[i]).1 == keys_1[i].1,
        tracked_frontier(keys_0, frontier),
    ensures
        tracked_frontier(keys_1, frontier),
{
    assert forall|j: int| 0 <= j < frontier.len() implies tracked_node(
        keys_1,
        #[trigger] frontier[j],
    ) by {
        assert(tracked_node(keys_0, frontier[j]));
        assert forall|i: int| 0 <= i < keys_1.len() implies keys_0[i].1 == keys_1[i].1 by {
        }
    }
}

/// A crawl keeps the frontier and the previous frontier true to the keys, whoever is taken out.
pub proof fn law_crawl_tracked(
    v: CollectionView,
    split_by: usize,
    malicious: Seq<usize>,
    is_last: bool,
)
    requires
        tracked_frontier(v.keys, v.frontier),
        tracked_frontier(v.keys, v.prev_frontier),
    ensures
        tracked_frontier(
            crawl_view(v, split_by, malicious, is_last).keys,
            crawl_view(v, split_by, malicious, is_last).frontier,
        ),
        tracked_frontier(
            crawl_view(v, split_by, malicious, is_last).keys,
            crawl_view(v, split_by, malicious, is_last).prev_frontier,
        ),
{
    let keys = crawl_keys(v, malicious, is_last);
    let start = crawl_start(v, malicious);
    law_flags_irrelevant(v.keys, keys, start);
    law_children_tracked(keys, start);
}

/// The children of a frontier that is true to the keys are true to them.
pub proof fn law_children_tracked(keys: KeysView, frontier: Seq<NodeView>)
    requires
        tracked_frontier(keys, frontier),
    ensures
        tracked_frontier(keys, children(keys, frontier)),
{
    let next = children(keys, frontier);
    assert forall|j: int| 0 <= j < next.len() implies tracked_node(keys, #[trigger] next[j]) by {
        assert(tracked_node(keys, frontier[j / 2]));
        law_child_tracked(keys, frontier[j / 2], j % 2 == 1);
    }
}

/// A node that is true to the keys can be expanded where its path is shorter than they reach.
pub proof fn law_can_expand(keys: KeysView, node: NodeView)
    requires
        tracked_node(keys, node),
        forall|i: int|
            0 <= i < keys.len() ==> node.path.len() < (#[trigger] keys[i]).1.key.cor_words.len()
                && node.path.len() < keys[i].1.key.cs.len(),
    ensures
        can_expand(keys, node),
{
    assert forall|i: int| 0 <= i < keys.len() implies in_domain(
        keys[i].1.key,
        #[trigger] node.states[i],
    ) by {
        lemma_state_proof_irrelevant(keys[i].1.key, zero_proof(), zero_proof(), node.path);
    }
}

/// Whether the paths of a frontier have `level` directions and no two are the same.
pub open spec fn at_level(frontier: Seq<NodeView>, level: nat) -> bool {
    &&& forall|j: int| 0 <= j < frontier.len() ==> (#[trigger] frontier[j]).path.len() == level
    &&& forall|i: int, j: int|
        0 <= i < j < frontier.len() ==> (#[trigger] frontier[i]).path != (
        #[trigger] frontier[j]).path
}

/// The children of a frontier are one level further down, and no two are the same.
pub proof fn law_children_at_level(keys: KeysView, frontier: Seq<NodeView>, level: nat)
    requires
        at_level(frontier, level),
    ensures
        at_level(children(keys, frontier), level + 1),
{
    let next = children(keys, frontier);
    assert forall|j: int| 0 <= j < next.len() implies (#[trigger] next[j]).path.len() == level
        + 1 by {
        assert(frontier[j / 2].path.len() == level);
    }
    assert forall|i: int, j: int| 0 <= i < j < next.len() implies (#[trigger] next[i]).path != (
    #[trigger] next[j]).path by {
        let (p, q) = (frontier[i / 2].path, frontier[j / 2].path);
        assert(next[i].path == p.push(i % 2 == 1));
        assert(next[j].path == q.push(j % 2 == 1));
        if next[i].path == next[j].path {
            assert(p =~= p.push(i % 2 == 1).drop_last());
            assert(q =~= q.push(j % 2 == 1).drop_last());
            assert(p.push(i % 2 == 1).last() == q.push(j % 2 == 1).last());
            if i / 2 < j / 2 {
                assert(frontier[i / 2].path != frontier[j / 2].path);
            }
        }
    }
}

/// Whether `x` stands in `s` at `i` or later, with a set flag or beyond the flags.
pub open spec fn is_kept<A>(s: Seq<A>, flags: Seq<bool>, i: int, x: A) -> bool {
    exists|k: int| i <= k < s.len() && (k < flags.len() ==> flags[k]) && #[trigger] s[k] == x
}

/// What is kept of a sequence are the elements whose flag is set and those beyond the flags.
pub proof fn law_kept_members<A>(s: Seq<A>, flags: Seq<bool>, i: int)
    requires
        0 <= i <= s.len(),
    ensures
        forall|j: int|
            0 <= j < kept(s, flags, i).len() ==> is_kept(
                s,
                flags,
                i,
                #[trigger] kept(s, flags, i)[j],
            ),
        forall|x: A| #[trigger] is_kept(s, flags, i, x) ==> kept(s, flags, i).contains(x),
    decreases s.len() - i,
{
    if i < s.len() {
        law_kept_members(s, flags, i + 1);
        let rest = kept(s, flags, i + 1);
        let all = kept(s, flags, i);
        let here = i >= flags.len() || flags[i];
        assert(all == if here {
            seq![s[i]] + rest
        } else {
            rest
        });
        assert forall|j: int| 0 <= j < all.len() implies is_kept(s, flags, i, #[trigger] all[j]) by {
            if here && j == 0 {
                assert(s[i] == all[0]);
            } else {
                let x = if here {
                    rest[j - 1]
                } else {
                    rest[j]
                };
                assert(is_kept(s, flags, i + 1, x));
                let k = choose|k: int|
                    i + 1 <= k < s.len() && (k < flags.len() ==> flags[k]) && #[trigger] s[k] == x;
                assert(i <= k < s.len() && s[k] == x);
            }
        }
        assert forall|x: A| #[trigger] is_kept(s, flags, i, x) implies all.contains(x) by {
            let k = choose|k: int|
                i <= k < s.len() && (k < flags.len() ==> flags[k]) && #[trigger] s[k] == x;
            if k == i {
                assert(all[0] == x);
            } else {
                assert(i + 1 <= k < s.len() && s[k] == x);
                assert(is_kept(s, flags, i + 1, x));
                let j = choose|j: int| 0 <= j < rest.len() && rest[j] == x;
                if here {
                    assert(all[j + 1] == x);
                } else {
                    assert(all[j] == x);
                }
            }
        }
    }
}

/// Pruning keeps a frontier true to the keys.
pub proof fn law_prune_tracked(keys: KeysView, frontier: Seq<NodeView>, flags: Seq<bool>)
    requires
        tracked_frontier(keys, frontier),
    ensures
        tracked_frontier(keys, kept(frontier, flags, 0)),
{
    law_kept_members(frontier, flags, 0);
    let rest = kept(frontier, flags, 0);
    assert forall|j: int| 0 <= j < rest.len() implies tracked_node(keys, #[trigger] rest[j]) by {
        assert(is_kept(frontier, flags, 0, rest[j]));
    }
}

/// Pruning leaves a frontier at its level, and no two paths are the same.
pub proof fn law_prune_at_level(frontier: Seq<NodeView>, flags: Seq<bool>, i: int, level: nat)
    requires
        at_level(frontier, level),
        0 <= i <= frontier.len(),
    ensures
        at_level(kept(frontier, flags, i), level),
    decreases frontier.len() - i,
{
    if i < frontier.len() {
        law_prune_at_level(frontier, flags, i + 1, level);
        law_kept_members(frontier, flags, i + 1);
        let rest = kept(frontier, flags, i + 1);
        if i >= flags.len() || flags[i] {
            let all = seq![frontier[i]] + rest;
            assert forall|j: int| 0 <= j < all.len() implies (#[trigger] all[j]).path.len()
                == level by {
                if j > 0 {
                    assert(all[j] == rest[j - 1]);
                }
            }
            assert forall|a: int, b: int| 0 <= a < b < all.len() implies (#[trigger] all[a]).path
                != (#[trigger] all[b]).path by {
                assert(all[b] == rest[b - 1]);
                if a == 0 {
                    assert(is_kept(frontier, flags, i + 1, rest[b - 1]));
                    let k = choose|k: int|
                        i + 1 <= k < frontier.len() && (k < flags.len() ==> flags[k])
                            && #[trigger] frontier[k] == rest[b - 1];
                    assert(frontier[i].path != frontier[k].path);
                } else {
                    assert(all[a] == rest[a - 1]);
                }
            }
        }
    }
}

/// What a client contributes: a path and the value planted at each of its prefixes.
pub struct Client {
    pub alpha: Seq<bool>,
    pub values: Seq<EmbView>,
}

impl Client {
    /// The value that the client planted at the node at `path`.
    pub open spec fn planted(self, path: Seq<bool>) -> EmbView {
        if on_path(self.alpha, path) {
            self.values[path.len() - 1]
        } else {
            EmbCnt::zero_view()
        }
    }

    /// Whether the client plants proper values on a path of `depth` levels.
    pub open spec fn proper(self, depth: nat) -> bool {
        &&& self.alpha.len() == depth
        &&& self.values.len() == depth
        &&& forall|l: int| 0 <= l < depth ==> EmbCnt::valid(#[trigger] self.values[l])
    }
}

/// Whether two servers hold the two halves of the clients' keys and agree on who is live.
pub open spec fn honest_clients(
    keys_0: KeysView,
    keys_1: KeysView,
    clients: Seq<Client>,
    depth: nat,
) -> bool {
    &&& keys_0.len() == clients.len()
    &&& keys_1.len() == clients.len()
    &&& forall|i: int|
        0 <= i < clients.len() ==> {
            &&& (#[trigger] clients[i]).proper(depth)
            &&& keys_0[i].0 == keys_1[i].0
            &&& honest_sketch_pair(
                keys_0[i].1,
                keys_1[i].1,
                clients[i].alpha,
                clients[i].values,
            )
        }
}

/// The sum of what the live ones among the first `n` clients planted at the node at `path`.
pub open spec fn planted_sum(
    keys: KeysView,
    clients: Seq<Client>,
    path: Seq<bool>,
    n: nat,
) -> EmbView
    decreases n,
{
    if n == 0 {
        EmbCnt::zero_view()
    } else {
        let sum = planted_sum(keys, clients, path, (n - 1) as nat);
        if keys[n - 1].0 {
            EmbCnt::add_view(sum, clients[n - 1].planted(path))
        } else {
            sum
        }
    }
}

/// Two pairs may be added up crosswise.
proof fn lemma_crosswise(a: EmbView, b: EmbView, c: EmbView, d: EmbView)
    requires
        EmbCnt::valid(a),
        EmbCnt::valid(b),
        EmbCnt::valid(c),
        EmbCnt::valid(d),
    ensures
        EmbCnt::add_view(EmbCnt::add_view(a, b), EmbCnt::add_view(c, d)) == EmbCnt::add_view(
            EmbCnt::add_view(a, c),
            EmbCnt::add_view(b, d),
        ),
{
    let cd = EmbCnt::add_view(c, d);
    let bd = EmbCnt::add_view(b, d);
    EmbCnt::lemma_closed(c, d);
    EmbCnt::lemma_closed(b, d);
    EmbCnt::lemma_closed(b, c);
    EmbCnt::lemma_associative(a, b, cd);
    EmbCnt::lemma_associative(b, c, d);
    EmbCnt::lemma_commutative(b, c);
    EmbCnt::lemma_associative(c, b, d);
    EmbCnt::lemma_associative(a, c, bd);
}

/// The sums of the first `n` clients' shares add up to the sum of what they planted.
proof fn lemma_live_sums(
    keys_0: KeysView,
    keys_1: KeysView,
    clients: Seq<Client>,
    depth: nat,
    node_0: NodeView,
    node_1: NodeView,
    dir: bool,
    n: nat,
)
    requires
        honest_clients(keys_0, keys_1, clients, depth),
        tracked_node(keys_0, node_0),
        tracked_node(keys_1, node_1),
        node_0.path == node_1.path,
        node_0.path.len() < depth,
        n <= clients.len(),
    ensures
        EmbCnt::valid(live_sum(keys_0, node_0, dir, n)),
        EmbCnt::valid(live_sum(keys_1, node_1, dir, n)),
        EmbCnt::add_view(
            live_sum(keys_0, node_0, dir, n),
            live_sum(keys_1, node_1, dir, n),
        ) == planted_sum(keys_0, clients, node_0.path.push(dir), n),
    decreases n,
{
    let zero = EmbCnt::zero_view();
    EmbCnt::lemma_inverse(zero, zero);
    if n > 0 {
        let m = (n - 1) as nat;
        lemma_live_sums(keys_0, keys_1, clients, depth, node_0, node_1, dir, m);
        let i = n - 1;
        let path = node_0.path.push(dir);
        assert(path.drop_last() =~= node_0.path);
        let client = clients[i];
        assert(client.proper(depth));
        law_contribution(keys_0[i].1, keys_1[i].1, client.alpha, client.values, path);
        assert(node_0.states[i] == state_at(keys_0[i].1.key, zero_proof(), node_0.path));
        assert(node_1.states[i] == state_at(keys_1[i].1.key, zero_proof(), node_1.path));
        let w_0 = child_payload(keys_0, node_0, dir, i).0;
        let w_1 = child_payload(keys_1, node_1, dir, i).0;
        assert(w_0 == word_at::<Payload>(keys_0[i].1.key, path).0);
        assert(w_1 == word_at::<Payload>(keys_1[i].1.key, path).0);
        let sum_0 = live_sum(keys_0, node_0, dir, m);
        let sum_1 = live_sum(keys_1, node_1, dir, m);
        EmbCnt::lemma_closed(sum_0, w_0);
        EmbCnt::lemma_closed(sum_1, w_1);
        lemma_crosswise(sum_0, w_0, sum_1, w_1);
    }
}

/// The two servers' values at a node add up to the sum of what the live clients planted there. The
/// counts alone do so too: it is their sum that is compared with a threshold.
pub proof fn law_node_values(
    keys_0: KeysView,
    keys_1: KeysView,
    clients: Seq<Client>,
    depth: nat,
    parent_0: NodeView,
    parent_1: NodeView,
    dir: bool,
)
    requires
        honest_clients(keys_0, keys_1, clients, depth),
        tracked_node(keys_0, parent_0),
        tracked_node(keys_1, parent_1),
        parent_0.path == parent_1.path,
        parent_0.path.len() < depth,
    ensures
        EmbCnt::add_view(
            child_node(keys_0, parent_0, dir).value,
            child_node(keys_1, parent_1, dir).value,
        ) == planted_sum(keys_0, clients, parent_0.path.push(dir), clients.len()),
        field(
            child_node(keys_0, parent_0, dir).value.count + child_node(
                keys_1,
                parent_1,
                dir,
            ).value.count,
        ) == planted_sum(keys_0, clients, parent_0.path.push(dir), clients.len()).count,
{
    lemma_live_sums(
        keys_0,
        keys_1,
        clients,
        depth,
        parent_0,
        parent_1,
        dir,
        clients.len(),
    );
}

/// Whether two frontiers consist of the same prefixes.
pub open spec fn same_paths(frontier_0: Seq<NodeView>, frontier_1: Seq<NodeView>) -> bool {
    &&& frontier_0.len() == frontier_1.len()
    &&& forall|j: int|
        0 <= j < frontier_0.len() ==> (#[trigger] frontier_0[j]).path == frontier_1[j].path
}

/// The same prefixes have the same children.
pub proof fn law_children_same_paths(
    keys_0: KeysView,
    keys_1: KeysView,
    frontier_0: Seq<NodeView>,
    frontier_1: Seq<NodeView>,
)
    requires
        same_paths(frontier_0, frontier_1),
    ensures
        same_paths(children(keys_0, frontier_0), children(keys_1, frontier_1)),
{
    let next_0 = children(keys_0, frontier_0);
    let next_1 = children(keys_1, frontier_1);
    assert forall|j: int| 0 <= j < next_0.len() implies (#[trigger] next_0[j]).path
        == next_1[j].path by {
        assert(frontier_0[j / 2].path == frontier_1[j / 2].path);
    }
}

/// Two servers start from the same prefix, the empty one.
pub proof fn law_roots_same_paths(keys_0: KeysView, keys_1: KeysView)
    ensures
        same_paths(seq![root_node(keys_0)], seq![root_node(keys_1)]),
        at_level(seq![root_node(keys_0)], 0),
{
}

/// Pruning by the same flags leaves two servers with the same prefixes.
pub proof fn law_prune_same_paths(
    frontier_0: Seq<NodeView>,
    frontier_1: Seq<NodeView>,
    flags: Seq<bool>,
    i: int,
)
    requires
        same_paths(frontier_0, frontier_1),
        0 <= i <= frontier_0.len(),
    ensures
        same_paths(kept(frontier_0, flags, i), kept(frontier_1, flags, i)),
    decreases frontier_0.len() - i,
{
    if i < frontier_0.len() {
        law_prune_same_paths(frontier_0, frontier_1, flags, i + 1);
        if i >= flags.len() || flags[i] {
            let rest_0 = kept(frontier_0, flags, i + 1);
            let rest_1 = kept(frontier_1, flags, i + 1);
            let all_0 = seq![frontier_0[i]] + rest_0;
            let all_1 = seq![frontier_1[i]] + rest_1;
            assert forall|j: int| 0 <= j < all_0.len() implies (#[trigger] all_0[j]).path
                == all_1[j].path by {
                if j == 0 {
                    assert(frontier_0[i].path == frontier_1[i].path);
                } else {
                    assert(all_0[j] == rest_0[j - 1] && all_1[j] == rest_1[j - 1]);
                }
            }
        }
    }
}

/// The same verdicts on the sketches leave both servers with the halves of the same clients' keys.
pub proof fn law_verdicts_agree(
    keys_0: KeysView,
    keys_1: KeysView,
    clients: Seq<Client>,
    depth: nat,
    flags: Seq<bool>,
)
    requires
        honest_clients(keys_0, keys_1, clients, depth),
        flags.len() == clients.len(),
    ensures
        honest_clients(judged(keys_0, flags), judged(keys_1, flags), clients, depth),
{
}

/// An honest client's combined proofs are the same at both servers.
proof fn lemma_combined_proofs(
    keys_0: KeysView,
    keys_1: KeysView,
    clients: Seq<Client>,
    depth: nat,
    frontier_0: Seq<NodeView>,
    frontier_1: Seq<NodeView>,
    i: int,
    n: nat,
)
    requires
        honest_clients(keys_0, keys_1, clients, depth),
        tracked_frontier(keys_0, frontier_0),
        tracked_frontier(keys_1, frontier_1),
        same_paths(frontier_0, frontier_1),
        forall|j: int|
            0 <= j < frontier_0.len() ==> (#[trigger] frontier_0[j]).path.len() <= depth,
        0 <= i < clients.len(),
        n <= frontier_0.len(),
    ensures
        combined_proof(frontier_0, i, n) == combined_proof(frontier_1, i, n),
    decreases n,
{
    if n > 0 {
        let m = (n - 1) as nat;
        lemma_combined_proofs(keys_0, keys_1, clients, depth, frontier_0, frontier_1, i, m);
        let (node_0, node_1) = (frontier_0[n - 1], frontier_1[n - 1]);
        assert(tracked_node(keys_0, node_0) && tracked_node(keys_1, node_1));
        assert(node_0.path == node_1.path && node_0.path.len() <= depth);
        let client = clients[i];
        assert(client.proper(depth));
        assert(node_0.states[i] == state_at(keys_0[i].1.key, zero_proof(), node_0.path));
        assert(node_1.states[i] == state_at(keys_1[i].1.key, zero_proof(), node_1.path));
        law_proofs_agree::<Payload>(
            keys_0[i].1.key,
            keys_1[i].1.key,
            client.alpha,
            authenticated(client.values, joint_mac_key(keys_0[i].1, keys_1[i].1)),
            zero_proof(),
            node_0.path,
        );
    }
}

/// Who is live depends on the flags alone.
proof fn lemma_alive_by_flags(keys_0: KeysView, keys_1: KeysView, n: nat)
    requires
        n <= keys_0.len(),
        keys_0.len() == keys_1.len(),
        forall|i: int| 0 <= i < keys_0.len() ==> (#[trigger] keys_0[i]).0 == keys_1[i].0,
    ensures
        alive_indices(keys_0, n) == alive_indices(keys_1, n),
        forall|p: int|
            0 <= p < alive_indices(keys_0, n).len() ==> 0 <= #[trigger] alive_indices(
                keys_0,
                n,
            )[p] < n,
    decreases n,
{
    if n > 0 {
        lemma_alive_by_flags(keys_0, keys_1, (n - 1) as nat);
        assert(keys_0[n - 1].0 == keys_1[n - 1].0);
    }
}

/// The live clients' proofs are the same at both servers where all clients are honest.
pub proof fn law_live_proofs_agree(
    keys_0: KeysView,
    keys_1: KeysView,
    clients: Seq<Client>,
    depth: nat,
    frontier_0: Seq<NodeView>,
    frontier_1: Seq<NodeView>,
)
    requires
        honest_clients(keys_0, keys_1, clients, depth),
        tracked_frontier(keys_0, frontier_0),
        tracked_frontier(keys_1, frontier_1),
        same_paths(frontier_0, frontier_1),
        forall|j: int|
            0 <= j < frontier_0.len() ==> (#[trigger] frontier_0[j]).path.len() <= depth,
    ensures
        live_proofs(keys_0, frontier_0) == live_proofs(keys_1, frontier_1),
{
    assert forall|i: int| 0 <= i < keys_0.len() implies (#[trigger] keys_0[i]).0 == keys_1[i].0 by {
        assert(clients[i].proper(depth));
    }
    lemma_alive_by_flags(keys_0, keys_1, keys_0.len());
    let alive = alive_indices(keys_0, keys_0.len());
    assert forall|p: int| 0 <= p < alive.len() implies combined_proof(
        frontier_0,
        #[trigger] alive[p],
        frontier_0.len(),
    ) == combined_proof(frontier_1, alive[p], frontier_1.len()) by {
        lemma_combined_proofs(
            keys_0,
            keys_1,
            clients,
            depth,
            frontier_0,
            frontier_1,
            alive[p],
            frontier_0.len(),
        );
    }
    assert(live_proofs(keys_0, frontier_0) =~= live_proofs(keys_1, frontier_1));
}

/// Taking the same suspects out leaves both servers with the halves of the same clients' keys.
pub proof fn law_crawl_keys_agree(
    v_0: CollectionView,
    v_1: CollectionView,
    clients: Seq<Client>,
    depth: nat,
    malicious: Seq<usize>,
    is_last: bool,
)
    requires
        honest_clients(v_0.keys, v_1.keys, clients, depth),
    ensures
        honest_clients(
            crawl_keys(v_0, malicious, is_last),
            crawl_keys(v_1, malicious, is_last),
            clients,
            depth,
        ),
{
    assert forall|i: int| 0 <= i < v_0.keys.len() implies (#[trigger] v_0.keys[i]).0
        == v_1.keys[i].0 by {
        assert(clients[i].proper(depth));
    }
    lemma_alive_by_flags(v_0.keys, v_1.keys, v_0.keys.len());
    assert forall|i: int| 0 <= i < v_0.keys.len() implies is_suspect(v_0.keys, malicious, i)
        == is_suspect(v_1.keys, malicious, i) by {
    }
    let keys_0 = crawl_keys(v_0, malicious, is_last);
    let keys_1 = crawl_keys(v_1, malicious, is_last);
    assert forall|i: int| 0 <= i < clients.len() implies (#[trigger] clients[i]).proper(depth)
        && keys_0[i].0 == keys_1[i].0 && honest_sketch_pair(
        keys_0[i].1,
        keys_1[i].1,
        clients[i].alpha,
        clients[i].values,
    ) by {
        assert(is_suspect(v_0.keys, malicious, i) == is_suspect(v_1.keys, malicious, i));
    }
}

/// Where all clients are honest, two servers that crawl the same prefixes find the same Merkle roots
/// for the same chunks, and come to the same prefixes.
pub proof fn law_roots_agree(
    v_0: CollectionView,
    v_1: CollectionView,
    clients: Seq<Client>,
    depth: nat,
    split_by: usize,
    malicious: Seq<usize>,
    is_last: bool,
)
    requires
        honest_clients(v_0.keys, v_1.keys, clients, depth),
        tracked_frontier(v_0.keys, v_0.frontier),
        tracked_frontier(v_1.keys, v_1.frontier),
        tracked_frontier(v_0.keys, v_0.prev_frontier),
        tracked_frontier(v_1.keys, v_1.prev_frontier),
        same_paths(v_0.frontier, v_1.frontier),
        same_paths(v_0.prev_frontier, v_1.prev_frontier),
        forall|j: int|
            0 <= j < crawl_start(v_0, malicious).len() ==> (#[trigger] crawl_start(
                v_0,
                malicious,
            )[j]).path.len() < depth,
    ensures
        ({
            let next_0 = crawl_view(v_0, split_by, malicious, is_last);
            let next_1 = crawl_view(v_1, split_by, malicious, is_last);
            &&& next_0.roots == next_1.roots
            &&& next_0.indices == next_1.indices
            &&& same_paths(next_0.frontier, next_1.frontier)
            &&& same_paths(next_0.prev_frontier, next_1.prev_frontier)
            &&& honest_clients(next_0.keys, next_1.keys, clients, depth)
        }),
{
    let keys_0 = crawl_keys(v_0, malicious, is_last);
    let keys_1 = crawl_keys(v_1, malicious, is_last);
    let start_0 = crawl_start(v_0, malicious);
    let start_1 = crawl_start(v_1, malicious);
    law_crawl_keys_agree(v_0, v_1, clients, depth, malicious, is_last);
    law_crawl_tracked(v_0, split_by, malicious, is_last);
    law_crawl_tracked(v_1, split_by, malicious, is_last);
    law_children_same_paths(keys_0, keys_1, start_0, start_1);
    let next_0 = children(keys_0, start_0);
    let next_1 = children(keys_1, start_1);
    assert forall|j: int| 0 <= j < next_0.len() implies (#[trigger] next_0[j]).path.len()
        <= depth by {
        assert(start_0[j / 2].path.len() < depth);
    }
    law_live_proofs_agree(keys_0, keys_1, clients, depth, next_0, next_1);
    assert forall|i: int| 0 <= i < keys_0.len() implies (#[trigger] keys_0[i]).0 == keys_1[i].0 by {
        assert(clients[i].proper(depth));
    }
    lemma_alive_by_flags(keys_0, keys_1, keys_0.len());
}

/// The sums of what the live clients planted at the first `n` nodes, where the count is positive.
pub open spec fn planted_results(
    keys: KeysView,
    clients: Seq<Client>,
    frontier: Seq<NodeView>,
    n: nat,
) -> Seq<ResultView>
    decreases n,
{
    if n == 0 {
        Seq::empty()
    } else {
        let before = planted_results(keys, clients, frontier, (n - 1) as nat);
        let path = frontier[n - 1].path;
        let value = planted_sum(keys, clients, path, clients.len());
        if value.count > 0 {
            before.push(ResultView { path, value })
        } else {
            before
        }
    }
}

/// The first `n` of two servers' shares join into what the live clients planted.
proof fn lemma_joined(
    keys_0: KeysView,
    keys_1: KeysView,
    clients: Seq<Client>,
    depth: nat,
    start_0: Seq<NodeView>,
    start_1: Seq<NodeView>,
    n: nat,
)
    requires
        honest_clients(keys_0, keys_1, clients, depth),
        tracked_frontier(keys_0, start_0),
        tracked_frontier(keys_1, start_1),
        same_paths(start_0, start_1),
        forall|j: int| 0 <= j < start_0.len() ==> (#[trigger] start_0[j]).path.len() < depth,
        n <= 2 * start_0.len(),
    ensures
        joined(
            shares_view(children(keys_0, start_0)),
            shares_view(children(keys_1, start_1)),
            n,
        ) == planted_results(keys_0, clients, children(keys_0, start_0), n),
    decreases n,
{
    if n > 0 {
        lemma_joined(keys_0, keys_1, clients, depth, start_0, start_1, (n - 1) as nat);
        let j = n - 1;
        let dir = j % 2 == 1;
        let parent_0 = start_0[j / 2];
        let parent_1 = start_1[j / 2];
        assert(tracked_node(keys_0, parent_0) && tracked_node(keys_1, parent_1));
        assert(parent_0.path == parent_1.path && parent_0.path.len() < depth);
        lemma_live_sums(
            keys_0,
            keys_1,
            clients,
            depth,
            parent_0,
            parent_1,
            dir,
            clients.len(),
        );
        let value_0 = live_sum(keys_0, parent_0, dir, keys_0.len());
        let zero = EmbCnt::zero_view();
        EmbCnt::lemma_inverse(value_0, value_0);
        EmbCnt::lemma_commutative(zero, value_0);
        assert(children(keys_0, start_0)[j] == child_node(keys_0, parent_0, dir));
        assert(children(keys_1, start_1)[j] == child_node(keys_1, parent_1, dir));
    }
}

/// Where all clients are honest, what two servers share at the last level joins into exactly the
/// prefixes at which live clients planted a positive count, each with the sum of what was planted.
pub proof fn law_final_values(
    keys_0: KeysView,
    keys_1: KeysView,
    clients: Seq<Client>,
    depth: nat,
    start_0: Seq<NodeView>,
    start_1: Seq<NodeView>,
)
    requires
        honest_clients(keys_0, keys_1, clients, depth),
        tracked_frontier(keys_0, start_0),
        tracked_frontier(keys_1, start_1),
        same_paths(start_0, start_1),
        forall|j: int| 0 <= j < start_0.len() ==> (#[trigger] start_0[j]).path.len() < depth,
    ensures
        ({
            let last_0 = children(keys_0, start_0);
            let last_1 = children(keys_1, start_1);
            joined(shares_view(last_0), shares_view(last_1), last_0.len()) == planted_results(
                keys_0,
                clients,
                last_0,
                last_0.len(),
            )
        }),
{
    lemma_joined(keys_0, keys_1, clients, depth, start_0, start_1, 2 * start_0.len());
}

/// The place of the client's prefix in a frontier, or -1.
pub open spec fn place_on_path(frontier: Seq<NodeView>, alpha: Seq<bool>, n: nat) -> int
    decreases n,
{
    if n == 0 {
        -1
    } else if on_path(alpha, frontier[n - 1].path) {
        n - 1
    } else {
        place_on_path(frontier, alpha, (n - 1) as nat)
    }
}

/// In a frontier at one level at most one node is on a path.
proof fn lemma_place_on_path(frontier: Seq<NodeView>, alpha: Seq<bool>, level: nat, n: nat)
    requires
        at_level(frontier, level),
        n <= frontier.len(),
    ensures
        -1 <= place_on_path(frontier, alpha, n) < n,
        forall|j: int|
            0 <= j < n ==> on_path(alpha, (#[trigger] frontier[j]).path) == (j == place_on_path(
                frontier,
                alpha,
                n,
            )),
    decreases n,
{
    if n > 0 {
        lemma_place_on_path(frontier, alpha, level, (n - 1) as nat);
        let last = frontier[n - 1].path;
        if on_path(alpha, last) {
            assert forall|j: int| 0 <= j < n - 1 implies !on_path(
                alpha,
                (#[trigger] frontier[j]).path,
            ) by {
                assert(frontier[j].path != frontier[n - 1].path);
            }
        }
    }
}

/// Below the root, the vector that is sketched for a client holds the share of the count and of its
/// authentication code that the client's key evaluates to at each node of the frontier.
pub proof fn law_sketched_vector(keys: KeysView, frontier: Seq<NodeView>, i: int, j: int)
    requires
        tracked_frontier(keys, frontier),
        0 <= i < keys.len(),
        0 <= j < frontier.len(),
        frontier[j].path.len() > 0,
    ensures
        client_counts(frontier, i)[j] == word_at::<Payload>(
            keys[i].1.key,
            frontier[j].path,
        ).0.count,
        client_codes(frontier, i)[j] == word_at::<Payload>(keys[i].1.key, frontier[j].path).1,
{
    assert(tracked_node(keys, frontier[j]));
    assert(frontier[j].values[i] == Payload::clear_aux_view(
        word_at::<Payload>(keys[i].1.key, frontier[j].path),
    ));
}

/// The two servers' sketches of an honest client who counts once pass the check: together they are
/// the sketch of a vector with at most a single one, authenticated under the joint key.
pub proof fn law_honest_sketch_passes(
    keys_0: KeysView,
    keys_1: KeysView,
    clients: Seq<Client>,
    depth: nat,
    frontier_0: Seq<NodeView>,
    frontier_1: Seq<NodeView>,
    level: nat,
    i: int,
    s: StreamView,
)
    requires
        honest_clients(keys_0, keys_1, clients, depth),
        tracked_frontier(keys_0, frontier_0),
        tracked_frontier(keys_1, frontier_1),
        same_paths(frontier_0, frontier_1),
        at_level(frontier_0, level),
        0 < level <= depth,
        0 <= i < clients.len(),
        clients[i].values[level - 1].count == 1,
    ensures
        ({
            let mac_key = joint_mac_key(keys_0[i].1, keys_1[i].1);
            let sketch_0 = sketch_view(
                client_counts(frontier_0, i),
                client_codes(frontier_0, i),
                s,
            );
            let sketch_1 = sketch_view(
                client_counts(frontier_1, i),
                client_codes(frontier_1, i),
                s,
            );
            let r_x = field(sketch_0.r_x + sketch_1.r_x);
            &&& field(sketch_0.r2_x + sketch_1.r2_x) == field_mul(r_x, r_x)
            &&& field(sketch_0.r_kx + sketch_1.r_kx) == field_mul(r_x, mac_key)
        }),
{
    let client = clients[i];
    assert(client.proper(depth));
    let mac_key = joint_mac_key(keys_0[i].1, keys_1[i].1);
    let n = frontier_0.len();
    let place = place_on_path(frontier_0, client.alpha, n);
    lemma_place_on_path(frontier_0, client.alpha, level, n);
    let (counts_0, codes_0) = (client_counts(frontier_0, i), client_codes(frontier_0, i));
    let (counts_1, codes_1) = (client_counts(frontier_1, i), client_codes(frontier_1, i));
    let unit = unit_vector(n, place);
    assert forall|j: int| 0 <= j < n implies field(counts_0[j] + counts_1[j]) == unit[j] && field(
        codes_0[j] + codes_1[j],
    ) == field_mul(unit[j], mac_key) by {
        let (node_0, node_1) = (frontier_0[j], frontier_1[j]);
        assert(tracked_node(keys_0, node_0) && tracked_node(keys_1, node_1));
        assert(node_0.path == node_1.path && node_0.path.len() == level);
        let path = node_0.path;
        law_contribution(keys_0[i].1, keys_1[i].1, client.alpha, client.values, path);
        assert(node_0.values[i] == Payload::clear_aux_view(
            word_at::<Payload>(keys_0[i].1.key, path),
        ));
        assert(node_1.values[i] == Payload::clear_aux_view(
            word_at::<Payload>(keys_1[i].1.key, path),
        ));
        assert(on_path(client.alpha, path) == (j == place));
    }
    assert(vector_sum(counts_0, counts_1) =~= unit);
    assert(vector_sum(codes_0, codes_1) =~= vector_scaled(mac_key, unit));
    law_sketch_linear(counts_0, codes_0, counts_1, codes_1, s);
    law_sketch_accepts(n, place, mac_key, s);
}

/// Whether `n` is a power of two.
pub open spec fn is_power_of_two(n: nat) -> bool {
    exists|k: nat| n == #[trigger] pow2(k)
}

/// Doubling a power of two up to `n` gives a power of two that is at least `n` and, unless nothing
/// was to be done, less than twice as much.
proof fn lemma_doubled_power(k: nat, n: nat)
    ensures
        is_power_of_two(doubled_up_to(pow2(k), n)),
        doubled_up_to(pow2(k), n) >= n,
        doubled_up_to(pow2(k), n) == pow2(k) || doubled_up_to(pow2(k), n) < 2 * n,
    decreases
            if pow2(k) < n {
                n - pow2(k)
            } else {
                0
            },
{
    lemma_pow2_pos(k);
    if pow2(k) < n {
        lemma_pow2_unfold(k + 1);
        lemma_doubled_power(k + 1, n);
    }
}

/// The number of leaves of a tree is the least power of two that is at least the number of proofs.
pub proof fn law_leaf_count(n: nat)
    ensures
        is_power_of_two(leaf_count(n)),
        leaf_count(n) >= n,
        forall|k: nat| #[trigger] pow2(k) >= n ==> leaf_count(n) <= pow2(k),
{
    lemma2_to64();
    lemma_doubled_power(0, n);
    let count = leaf_count(n);
    let m = choose|m: nat| count == #[trigger] pow2(m);
    assert forall|k: nat| #[trigger] pow2(k) >= n implies count <= pow2(k) by {
        lemma_pow2_pos(k);
        if count != 1 && k < m {
            lemma_pow2_grows(k, (m - 1) as nat);
            lemma_pow2_unfold(m);
        } else if k >= m {
            lemma_pow2_grows(m, k);
        }
    }
}

/// Powers of two grow with the exponent.
proof fn lemma_pow2_grows(a: nat, b: nat)
    requires
        a <= b,
    ensures
        pow2(a) <= pow2(b),
{
    if a < b {
        lemma_pow2_strictly_increases(a, b);
    }
}

/// An undivided tree takes the proofs of all live clients.
pub proof fn law_undivided_tree(proofs: Seq<Seq<u8>>)
    ensures
        chunk(proofs, leaf_count(proofs.len()), 0) == proofs,
{
    law_leaf_count(proofs.len());
    let count = leaf_count(proofs.len());
    assert((0 + 1) * count == count && 0 * count == 0) by (nonlinear_arith);
    assert(chunk(proofs, count, 0) =~= proofs);
}

/// The two halves of a chunk make up the chunk: a search that goes on with the halves of the chunks
/// that did not agree misses nobody.
pub proof fn law_halves_cover(proofs: Seq<Seq<u8>>, size: nat, i: int)
    requires
        size >= 1,
        0 <= i < chunk_count(proofs.len(), 2 * size),
    ensures
        2 * i < chunk_count(proofs.len(), size),
        chunk(proofs, 2 * size, i) == chunk(proofs, size, 2 * i) + if 2 * i + 1 < chunk_count(
            proofs.len(),
            size,
        ) {
            chunk(proofs, size, 2 * i + 1)
        } else {
            Seq::empty()
        },
{
    let n = proofs.len();
    let s = size as int;
    let count = chunk_count(n, size) as int;
    let q = (n + 2 * s - 1) / (2 * s);
    lemma_fundamental_div_mod(n + 2 * s - 1, 2 * s);
    lemma_fundamental_div_mod(n + s - 1, s);
    assert(i * (2 * s) == (2 * i) * s && (i + 1) * (2 * s) == (2 * i) * s + 2 * s && (2 * i + 1) * s
        == (2 * i) * s + s && (2 * i + 2) * s == (2 * i) * s + 2 * s) by (nonlinear_arith);
    assert((2 * i) * s >= 0) by (nonlinear_arith)
        requires
            i >= 0,
            s >= 1,
    ;
    assert(i * (2 * s) < n) by (nonlinear_arith)
        requires
            i + 1 <= q,
            s >= 1,
            n + 2 * s - 1 >= (2 * s) * q,
    ;
    assert(2 * i < count) by (nonlinear_arith)
        requires
            (2 * i) * s < n,
            n + s - 1 < s * count + s,
            s >= 1,
    ;
    if 2 * i + 1 < count {
        assert((2 * i + 1) * s < n) by (nonlinear_arith)
            requires
                2 * i + 2 <= count,
                s >= 1,
                n + s - 1 >= s * count,
        ;
    } else {
        assert((2 * i + 1) * s >= n) by (nonlinear_arith)
            requires
                2 * i + 1 >= count,
                s >= 1,
                n + s - 1 < s * count + s,
        ;
    }
    let whole = chunk(proofs, 2 * size, i);
    let left = chunk(proofs, size, 2 * i);
    let right = chunk(proofs, size, 2 * i + 1);
    assert(whole =~= left + if 2 * i + 1 < count {
        right
    } else {
        Seq::empty()
    });
}

} // verus!
