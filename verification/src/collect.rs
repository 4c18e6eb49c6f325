//! One server's side of the collection: the keys of all clients and the frontier of the prefix tree.
use vstd::arithmetic::div_mod::{
    lemma_div_non_zero, lemma_fundamental_div_mod, lemma_fundamental_div_mod_converse,
};
use vstd::prelude::*;
use vstd::slice::slice_subrange;

use crate::bits::{bits_to_bitstring, bitstring_view, xor_in_place, xor_into_view};
use crate::compare::shorter;
use crate::consts::{TRIPLES_PER_LEVEL, XOF_SIZE};
use crate::dpf::{
    eval_state, eval_word, in_domain, label, root_state, zero_proof, EvalState, StateView,
};
use crate::emb_cnt::{EmbCnt, EmbView};
use crate::field::FE;
use crate::group::Group;
use crate::merkle::{merkle_root, proof_views, tree_root};
use crate::prg::{PrgSeed, PrgStream, StreamView, DOMAIN_STREAM};
use crate::sketch::{
    firsts, seconds, sketch_view, Payload, SketchDPFKey, SketchKeyView, SketchOutput,
};

pub use crate::compare::Dealer;
pub use crate::merkle::HashAlg;

verus! {

/// A node of the frontier: a prefix with the sum of the live clients' values at it, and for every
/// client the state of the evaluation and the share of the value with its authentication code.
#[derive(Debug)]
struct GlimpseTreeNode {
    path: Vec<bool>,
    value: EmbCnt,
    key_states: Vec<EvalState>,
    key_values: Vec<(EmbCnt, FE)>,
}

/// The model of a node of the frontier.
#[verifier::ext_equal]
pub struct NodeView {
    pub path: Seq<bool>,
    pub value: EmbView,
    pub states: Seq<StateView>,
    pub values: Seq<(EmbView, int)>,
}

impl View for GlimpseTreeNode {
    type V = NodeView;

    closed spec fn view(&self) -> NodeView {
        NodeView {
            path: self.path@,
            value: self.value@,
            states: self.key_states@.map_values(|s: EvalState| s@),
            values: self.key_values@.map_values(|v: (EmbCnt, FE)| v@),
        }
    }
}

/// A prefix with the value found at it.
#[derive(Debug, Clone)]
pub struct Result<T> {
    pub path: Vec<bool>,
    pub value: T,
}

/// The model of a `Result`.
#[verifier::ext_equal]
pub struct ResultView {
    pub path: Seq<bool>,
    pub value: EmbView,
}

impl View for Result<EmbCnt> {
    type V = ResultView;

    open spec fn view(&self) -> ResultView {
        ResultView { path: self.path@, value: self.value@ }
    }
}

/// Whether a server plays the first role in a session of two: the servers 0, 1 and 2 do in the
/// session 0, and the server 0 does in the session 1.
pub fn is_server_zero_in_session(server_id: i8, session_idx: usize) -> (r: bool)
    ensures
        r == ((0 <= server_id <= 2 && session_idx == 0) || (server_id == 0 && session_idx == 1)),
{
    if ((server_id == 2 || server_id == 1 || server_id == 0) && session_idx == 0) || (server_id == 0
        && session_idx == 1) {
        return true;
    }
    false
}

impl Clone for GlimpseTreeNode {
    fn clone(&self) -> (r: Self)
        ensures
            r@ == self@,
    {
        let mut key_states: Vec<EvalState> = Vec::new();
        for i in 0..self.key_states.len()
            invariant
                key_states@.len() == i,
                forall|j: int| 0 <= j < i ==> (#[trigger] key_states@[j])@ == self.key_states@[j]@,
        {
            key_states.push(self.key_states[i].clone());
        }
        let mut key_values: Vec<(EmbCnt, FE)> = Vec::new();
        for i in 0..self.key_values.len()
            invariant
                key_values@.len() == i,
                forall|j: int| 0 <= j < i ==> (#[trigger] key_values@[j])@ == self.key_values@[j]@,
        {
            key_values.push(self.key_values[i].duplicate());
        }
        let r = GlimpseTreeNode {
            path: self.path.clone(),
            value: self.value.clone(),
            key_states,
            key_values,
        };
        assert(r@ =~= self@);
        r
    }
}

/// One server's state of a collection.
#[derive(Debug)]
pub struct GlimpseKeyCollection {
    depth: usize,
    pub keys: Vec<(bool, SketchDPFKey)>,
    frontier: Vec<GlimpseTreeNode>,
    prev_frontier: Vec<GlimpseTreeNode>,
    final_proofs: Vec<[u8; XOF_SIZE]>,
    mtree_roots: Vec<[u8; XOF_SIZE]>,
    mtree_indices: Vec<usize>,
    rand_stream: PrgStream,
}

/// The keys of the clients, each with whether the client is still live.
pub type KeysView = Seq<(bool, SketchKeyView)>;

/// The model of a `GlimpseKeyCollection`.
#[verifier::ext_equal]
pub struct CollectionView {
    pub depth: nat,
    pub keys: KeysView,
    pub frontier: Seq<NodeView>,
    pub prev_frontier: Seq<NodeView>,
    pub final_proofs: Seq<Seq<u8>>,
    pub roots: Seq<Seq<u8>>,
    pub indices: Seq<usize>,
    pub stream: StreamView,
}

impl CollectionView {
    /// Every Merkle root comes with the chunk that it belongs to.
    pub open spec fn wf(self) -> bool {
        self.roots.len() == self.indices.len()
    }
}

/// The models of a list of keys.
pub open spec fn keys_view(keys: Seq<(bool, SketchDPFKey)>) -> KeysView {
    keys.map_values(|k: (bool, SketchDPFKey)| (k.0, k.1@))
}

impl View for GlimpseKeyCollection {
    type V = CollectionView;

    closed spec fn view(&self) -> CollectionView {
        CollectionView {
            depth: self.depth as nat,
            keys: keys_view(self.keys@),
            frontier: self.frontier@.map_values(|n: GlimpseTreeNode| n@),
            prev_frontier: self.prev_frontier@.map_values(|n: GlimpseTreeNode| n@),
            final_proofs: proof_views(self.final_proofs@),
            roots: proof_views(self.mtree_roots@),
            indices: self.mtree_indices@,
            stream: self.rand_stream@,
        }
    }
}

/// The collection before any key was added.
pub open spec fn empty_collection(depth: nat, stream: StreamView) -> CollectionView {
    CollectionView {
        depth,
        keys: Seq::empty(),
        frontier: Seq::empty(),
        prev_frontier: Seq::empty(),
        final_proofs: Seq::empty(),
        roots: Seq::empty(),
        indices: Seq::empty(),
        stream,
    }
}

/// The root of the prefix tree.
pub open spec fn root_node(keys: KeysView) -> NodeView {
    NodeView {
        path: Seq::empty(),
        value: EmbCnt::zero_view(),
        states: Seq::new(keys.len(), |i: int| root_state(keys[i].1.key, zero_proof())),
        values: Seq::new(keys.len(), |i: int| Payload::zero_view()),
    }
}

/// Client `i`'s payload share at the child of `parent` in direction `dir`.
pub open spec fn child_payload(
    keys: KeysView,
    parent: NodeView,
    dir: bool,
    i: int,
) -> (EmbView, int) {
    eval_word::<Payload>(keys[i].1.key, parent.states[i], dir, true)
}

/// The sum of the values of the live ones among the first `n` clients at the child of `parent` in
/// direction `dir`.
pub open spec fn live_sum(keys: KeysView, parent: NodeView, dir: bool, n: nat) -> EmbView
    decreases n,
{
    if n == 0 {
        EmbCnt::zero_view()
    } else {
        let sum = live_sum(keys, parent, dir, (n - 1) as nat);
        if keys[n - 1].0 {
            EmbCnt::add_view(sum, child_payload(keys, parent, dir, n - 1).0)
        } else {
            sum
        }
    }
}

/// The child of `parent` in direction `dir`. The embeddings of the single clients are dropped once
/// they are summed up.
pub open spec fn child_node(keys: KeysView, parent: NodeView, dir: bool) -> NodeView {
    let path = parent.path.push(dir);
    NodeView {
        path,
        value: live_sum(keys, parent, dir, keys.len()),
        states: Seq::new(
            keys.len(),
            |i: int| eval_state(keys[i].1.key, parent.states[i], dir, label(path)),
        ),
        values: Seq::new(
            keys.len(),
            |i: int| Payload::clear_aux_view(child_payload(keys, parent, dir, i)),
        ),
    }
}

/// The children of all nodes of a frontier, in order.
pub open spec fn children(keys: KeysView, frontier: Seq<NodeView>) -> Seq<NodeView> {
    Seq::new(2 * frontier.len(), |i: int| child_node(keys, frontier[i / 2], i % 2 == 1))
}

/// Whether every key can be evaluated one level below `node`.
pub open spec fn can_expand(keys: KeysView, node: NodeView) -> bool {
    &&& keys.len() <= node.states.len()
    &&& forall|i: int|
        0 <= i < keys.len() ==> in_domain(keys[i].1.key, #[trigger] node.states[i])
}

/// The places of the live ones among the first `n` clients.
pub open spec fn alive_indices(keys: KeysView, n: nat) -> Seq<int>
    decreases n,
{
    if n == 0 {
        Seq::empty()
    } else {
        let before = alive_indices(keys, (n - 1) as nat);
        if keys[n - 1].0 {
            before.push(n - 1)
        } else {
            before
        }
    }
}

/// Client `i`'s proofs at the first `n` of some nodes, exclusive-ored into one.
pub open spec fn combined_proof(nodes: Seq<NodeView>, i: int, n: nat) -> Seq<u8>
    decreases n,
{
    if n == 0 {
        zero_proof()
    } else {
        xor_into_view(
            combined_proof(nodes, i, (n - 1) as nat),
            nodes[n - 1].states[i].proof,
        )
    }
}

/// The combined proofs of the live clients, in order.
pub open spec fn live_proofs(keys: KeysView, nodes: Seq<NodeView>) -> Seq<Seq<u8>> {
    let alive = alive_indices(keys, keys.len());
    Seq::new(alive.len(), |p: int| combined_proof(nodes, alive[p], nodes.len()))
}

/// `size` doubled until it is at least `n`.
pub open spec fn doubled_up_to(size: nat, n: nat) -> nat
    decreases
            if size < n {
                n - size
            } else {
                0
            },
{
    if size == 0 || size >= n {
        size
    } else {
        doubled_up_to(2 * size, n)
    }
}

/// The least power of two that is at least `n`.
pub open spec fn leaf_count(n: nat) -> nat {
    doubled_up_to(1, n)
}

/// The number of chunks of `size` proofs into which `n` proofs are cut; the last may be shorter.
pub open spec fn chunk_count(n: nat, size: nat) -> nat {
    ((n + size - 1) / (size as int)) as nat
}

/// The `j`th chunk of `size` proofs.
pub open spec fn chunk(proofs: Seq<Seq<u8>>, size: nat, j: int) -> Seq<Seq<u8>> {
    let end = (j + 1) * size;
    proofs.subrange(
        j * size,
        if end < proofs.len() {
            end
        } else {
            proofs.len() as int
        },
    )
}

/// The chunks to look at when the first `n` of the chunks in `suspects`, of twice the size, did not
/// agree: the two halves of each, as far as there are `count` chunks.
pub open spec fn halves(suspects: Seq<usize>, count: nat, n: nat) -> Seq<usize>
    decreases n,
{
    if n == 0 {
        Seq::empty()
    } else {
        let i = suspects[n - 1];
        let left = halves(suspects, count, (n - 1) as nat).push((2 * i) as usize);
        if 2 * i + 1 < count {
            left.push((2 * i + 1) as usize)
        } else {
            left
        }
    }
}

/// Whether client `i` is at one of the places in `suspects` among the live clients.
pub open spec fn is_suspect(keys: KeysView, suspects: Seq<usize>, i: int) -> bool {
    let alive = alive_indices(keys, keys.len());
    exists|m: int|
        0 <= m < suspects.len() && (#[trigger] suspects[m]) < alive.len()
            && alive[suspects[m] as int] == i
}

/// The keys once the suspects are no longer live.
pub open spec fn without_suspects(keys: KeysView, suspects: Seq<usize>) -> KeysView {
    Seq::new(keys.len(), |i: int| (keys[i].0 && !is_suspect(keys, suspects, i), keys[i].1))
}

/// The keys that a crawl works with.
pub open spec fn crawl_keys(v: CollectionView, malicious: Seq<usize>, is_last: bool) -> KeysView {
    if malicious.len() > 0 && is_last {
        without_suspects(v.keys, malicious)
    } else {
        v.keys
    }
}

/// The frontier from which a crawl starts: with suspects it is the previous level's again.
pub open spec fn crawl_start(v: CollectionView, malicious: Seq<usize>) -> Seq<NodeView> {
    if malicious.len() > 0 {
        v.prev_frontier
    } else {
        v.frontier
    }
}

/// Into how many chunks a crawl cuts the proofs.
pub open spec fn crawl_split(split_by: usize, is_last: bool) -> nat {
    if is_last {
        1
    } else {
        split_by as nat
    }
}

/// How many proofs go into each Merkle tree.
pub open spec fn crawl_chunk_size(keys: KeysView, split: nat) -> nat {
    leaf_count(alive_indices(keys, keys.len()).len()) / split
}

/// Whether the collection can be crawled: every key can be evaluated one level on, every chunk takes
/// at least one proof, and the chunks to look at exist.
pub open spec fn can_crawl(
    v: CollectionView,
    split_by: usize,
    malicious: Seq<usize>,
    is_last: bool,
) -> bool {
    let keys = crawl_keys(v, malicious, is_last);
    let start = crawl_start(v, malicious);
    let split = crawl_split(split_by, is_last);
    let live = alive_indices(keys, keys.len()).len();
    &&& v.keys.len() <= usize::MAX / 2
    &&& forall|j: int| 0 <= j < start.len() ==> can_expand(keys, #[trigger] start[j])
    &&& 1 <= split <= leaf_count(live)
    &&& split == 1 ==> live > 0
    &&& split > 1 ==> forall|m: int|
        0 <= m < malicious.len() ==> 2 * (#[trigger] malicious[m]) < chunk_count(
            live,
            crawl_chunk_size(keys, split),
        )
}

/// The chunks of which a crawl computes the Merkle roots.
pub open spec fn crawl_indices(keys: KeysView, split: nat, malicious: Seq<usize>) -> Seq<usize> {
    if split == 1 {
        seq![0usize]
    } else {
        let live = alive_indices(keys, keys.len()).len();
        halves(malicious, chunk_count(live, crawl_chunk_size(keys, split)), malicious.len())
    }
}

/// The Merkle roots of the given chunks of the proofs.
pub open spec fn chunk_roots(
    proofs: Seq<Seq<u8>>,
    size: nat,
    indices: Seq<usize>,
) -> Seq<Seq<u8>> {
    indices.map_values(|j: usize| tree_root(chunk(proofs, size, j as int)))
}

/// The collection one level on.
pub open spec fn crawl_view(
    v: CollectionView,
    split_by: usize,
    malicious: Seq<usize>,
    is_last: bool,
) -> CollectionView {
    let keys = crawl_keys(v, malicious, is_last);
    let start = crawl_start(v, malicious);
    let split = crawl_split(split_by, is_last);
    let next = children(keys, start);
    let indices = crawl_indices(keys, split, malicious);
    CollectionView {
        keys,
        frontier: next,
        prev_frontier: start,
        roots: chunk_roots(live_proofs(keys, next), crawl_chunk_size(keys, split), indices),
        indices,
        ..v
    }
}

/// The values at some nodes.
pub open spec fn node_values(nodes: Seq<NodeView>) -> Seq<EmbView> {
    nodes.map_values(|n: NodeView| n.value)
}

/// The part of a sequence from `start` to `end`, and nothing where `end` is not beyond `start`.
pub open spec fn window<A>(s: Seq<A>, start: int, end: int) -> Seq<A> {
    if start < end {
        s.subrange(start, end)
    } else {
        Seq::empty()
    }
}

/// Client `i`'s shares of the counts at the nodes of a frontier.
pub open spec fn client_counts(frontier: Seq<NodeView>, i: int) -> Seq<int> {
    Seq::new(frontier.len(), |j: int| frontier[j].values[i].0.count)
}

/// Client `i`'s shares of the authentication codes at the nodes of a frontier.
pub open spec fn client_codes(frontier: Seq<NodeView>, i: int) -> Seq<int> {
    Seq::new(frontier.len(), |j: int| frontier[j].values[i].1)
}

/// The keys of which those without a set flag are no longer live.
pub open spec fn judged(keys: KeysView, flags: Seq<bool>) -> KeysView {
    Seq::new(keys.len(), |i: int| (keys[i].0 && flags[i], keys[i].1))
}

/// The elements from `i` on whose flag is set, and those beyond the flags.
pub open spec fn kept<A>(s: Seq<A>, flags: Seq<bool>, i: int) -> Seq<A>
    decreases s.len() - i,
{
    if i >= s.len() || i < 0 {
        Seq::empty()
    } else if i >= flags.len() || flags[i] {
        seq![s[i]] + kept(s, flags, i + 1)
    } else {
        kept(s, flags, i + 1)
    }
}

/// What the nodes of a frontier share.
pub open spec fn shares_view(frontier: Seq<NodeView>) -> Seq<ResultView> {
    frontier.map_values(|n: NodeView| ResultView { path: n.path, value: n.value })
}

/// The sums of the first `n` pairs of shares that have a positive count.
pub open spec fn joined(
    results_0: Seq<ResultView>,
    results_1: Seq<ResultView>,
    n: nat,
) -> Seq<ResultView>
    decreases n,
{
    if n == 0 {
        Seq::empty()
    } else {
        let before = joined(results_0, results_1, (n - 1) as nat);
        let value = EmbCnt::add_view(
            EmbCnt::add_view(EmbCnt::zero_view(), results_0[n - 1].value),
            results_1[n - 1].value,
        );
        if value.count > 0 {
            before.push(ResultView { path: results_0[n - 1].path, value })
        } else {
            before
        }
    }
}

/// The places of live clients are places of clients.
proof fn lemma_alive_indices(keys: KeysView, n: nat)
    requires
        n <= keys.len(),
    ensures
        alive_indices(keys, n).len() <= n,
        forall|p: int|
            0 <= p < alive_indices(keys, n).len() ==> 0 <= #[trigger] alive_indices(keys, n)[p] < n,
    decreases n,
{
    if n > 0 {
        lemma_alive_indices(keys, (n - 1) as nat);
    }
}

/// Doubling does not shrink, and it reaches its target.
proof fn lemma_doubled_up_to(size: nat, n: nat)
    requires
        size >= 1,
    ensures
        doubled_up_to(size, n) >= size,
        doubled_up_to(size, n) >= n,
    decreases
            if size < n {
                n - size
            } else {
                0
            },
{
    if size < n {
        lemma_doubled_up_to(2 * size, n);
    }
}

/// The number of chunks is the quotient, and one more where something is left over.
proof fn lemma_chunk_count(n: nat, size: nat)
    requires
        size >= 1,
    ensures
        chunk_count(n, size) == n / size + if n % size == 0 {
            0int
        } else {
            1
        },
{
    let (a, s) = (n as int, size as int);
    let (q, r) = (a / s, a % s);
    lemma_fundamental_div_mod(a, s);
    assert((q + 1) * s == s * q + s && q * s == s * q) by (nonlinear_arith);
    if r == 0 {
        lemma_fundamental_div_mod_converse(a + s - 1, s, q, s - 1);
    } else {
        lemma_fundamental_div_mod_converse(a + s - 1, s, q + 1, r - 1);
    }
}

/// A chunk takes at least one proof, and an undivided tree takes them all.
proof fn lemma_whole_chunk(n: nat, leaves: nat, split: nat)
    requires
        leaves == leaf_count(n),
        1 <= split <= leaves,
    ensures
        leaves / split >= 1,
        split == 1 && n > 0 ==> chunk_count(n, leaves / split) == 1,
{
    lemma_doubled_up_to(1, n);
    lemma_div_non_zero(leaves as int, split as int);
    if split == 1 && n > 0 {
        lemma_fundamental_div_mod_converse(n + leaves - 1, leaves as int, 1, n - 1);
    }
}

/// Every chunk that exists starts within the proofs.
proof fn lemma_chunk_starts(n: nat, size: nat, j: int)
    requires
        size >= 1,
        0 <= j < chunk_count(n, size),
    ensures
        0 <= j * size < n,
        (j + 1) * size == j * size + size,
{
    let total = n + size - 1;
    let s = size as int;
    lemma_fundamental_div_mod(total, s);
    let q = total / s;
    assert(j + 1 <= q);
    assert((j + 1) * s <= s * q) by (nonlinear_arith)
        requires
            j + 1 <= q,
            s >= 1,
    ;
    assert((j + 1) * s == j * s + s) by (nonlinear_arith);
    assert(j * s >= 0) by (nonlinear_arith)
        requires
            j >= 0,
            s >= 1,
    ;
}

impl GlimpseKeyCollection {
    /// A collection without keys, for paths of `depth` levels, whose sketches are weighed by what
    /// `seed` gives.
    pub fn new(seed: &PrgSeed, depth: usize) -> (r: GlimpseKeyCollection)
        ensures
            r@ == empty_collection(depth as nat, StreamView::start(seed@, DOMAIN_STREAM)),
            r@.wf(),
    {
        let r = GlimpseKeyCollection {
            depth,
            keys: Vec::new(),
            frontier: Vec::new(),
            prev_frontier: Vec::new(),
            final_proofs: Vec::new(),
            mtree_roots: Vec::new(),
            mtree_indices: Vec::new(),
            rand_stream: seed.to_rng(),
        };
        assert(r@ =~= empty_collection(depth as nat, r.rand_stream@));
        r
    }

    /// The clients' keys, each with whether the client is still live.
    pub fn client_keys(&self) -> (r: &Vec<(bool, SketchDPFKey)>)
        ensures
            keys_view(r@) == self@.keys,
    {
        &self.keys
    }

    /// Adds the key of a client, who is live until shown otherwise.
    pub fn add_key(&mut self, key: SketchDPFKey)
        requires
            key.triples@.len() == TRIPLES_PER_LEVEL * old(self)@.depth,
        ensures
            final(self)@ == (CollectionView {
                keys: old(self)@.keys.push((true, key@)),
                ..old(self)@
            }),
    {
        let ghost before = self@;
        self.keys.push((true, key));
        assert(self@.keys =~= before.keys.push((true, key@)));
    }

    /// Makes the root of the prefix tree the whole frontier.
    pub fn tree_init(&mut self)
        ensures
            final(self)@ == (CollectionView {
                frontier: seq![root_node(old(self)@.keys)],
                ..old(self)@
            }),
    {
        let ghost before = self@;
        let mut root = GlimpseTreeNode {
            path: Vec::new(),
            value: EmbCnt::zero(),
            key_states: Vec::new(),
            key_values: Vec::new(),
        };
        for i in 0..self.keys.len()
            invariant
                root.path@.len() == 0,
                root.value@ == EmbCnt::zero_view(),
                root.key_states@.len() == i,
                root.key_values@.len() == i,
                forall|j: int|
                    0 <= j < i ==> (#[trigger] root.key_states@[j])@ == root_state(
                        self.keys@[j].1.key@,
                        zero_proof(),
                    ),
                forall|j: int|
                    0 <= j < i ==> (#[trigger] root.key_values@[j])@ == Payload::zero_view(),
        {
            root.key_states.push(self.keys[i].1.eval_init());
            root.key_values.push((EmbCnt::zero(), FE::zero()));
        }
        assert(root@ =~= root_node(before.keys));
        let mut frontier: Vec<GlimpseTreeNode> = Vec::new();
        frontier.push(root);
        self.frontier = frontier;
        assert(self@.frontier =~= seq![root_node(before.keys)]);
    }

    /// The child of `parent` in direction `dir`.
    fn make_tree_node(&self, parent: &GlimpseTreeNode, dir: bool) -> (r: GlimpseTreeNode)
        requires
            can_expand(keys_view(self.keys@), parent@),
        ensures
            r@ == child_node(keys_view(self.keys@), parent@, dir),
    {
        let ghost keys = keys_view(self.keys@);
        let ghost child_path = parent.path@.push(dir);
        let mut bit_str = bits_to_bitstring(&parent.path);
        bit_str.push(
            if dir {
                '1'
            } else {
                '0'
            },
        );
        assert(bit_str@ =~= bitstring_view(child_path));

        let mut key_states: Vec<EvalState> = Vec::new();
        let mut key_values: Vec<(EmbCnt, FE)> = Vec::new();
        let mut child_val = EmbCnt::zero();
        for i in 0..self.keys.len()
            invariant
                keys == keys_view(self.keys@),
                can_expand(keys, parent@),
                bit_str@ == bitstring_view(child_path),
                child_path == parent.path@.push(dir),
                key_states@.len() == i,
                key_values@.len() == i,
                forall|j: int|
                    0 <= j < i ==> (#[trigger] key_states@[j])@ == eval_state(
                        keys[j].1.key,
                        parent@.states[j],
                        dir,
                        label(child_path),
                    ),
                forall|j: int|
                    0 <= j < i ==> (#[trigger] key_values@[j])@ == Payload::clear_aux_view(
                        child_payload(keys, parent@, dir, j),
                    ),
                child_val@ == live_sum(keys, parent@, dir, i as nat),
        {
            assert(in_domain(keys[i as int].1.key, parent@.states[i as int]));
            let (st, out0, out1) = self.keys[i].1.eval_bit(&parent.key_states[i], dir, &bit_str);
            if self.keys[i].0 {
                child_val.add_lazy(&out0);
            }
            let mut pair = (out0, out1);
            pair.clear_aux();
            key_states.push(st);
            key_values.push(pair);
        }
        child_val.reduce();

        let mut path = parent.path.clone();
        path.push(dir);
        let r = GlimpseTreeNode { path, value: child_val, key_states, key_values };
        assert(r@ =~= child_node(keys, parent@, dir));
        r
    }

    /// The children of all nodes of the frontier.
    fn expand_frontier(&self) -> (next: Vec<GlimpseTreeNode>)
        requires
            forall|j: int|
                0 <= j < self@.frontier.len() ==> can_expand(
                    self@.keys,
                    #[trigger] self@.frontier[j],
                ),
        ensures
            next@.map_values(|n: GlimpseTreeNode| n@) == children(self@.keys, self@.frontier),
    {
        let mut next: Vec<GlimpseTreeNode> = Vec::new();
        for j in 0..self.frontier.len()
            invariant
                forall|k: int|
                    0 <= k < self@.frontier.len() ==> can_expand(
                        self@.keys,
                        #[trigger] self@.frontier[k],
                    ),
                next@.len() == 2 * j,
                forall|k: int|
                    0 <= k < 2 * j ==> (#[trigger] next@[k])@ == child_node(
                        self@.keys,
                        self@.frontier[k / 2],
                        k % 2 == 1,
                    ),
        {
            assert(can_expand(self@.keys, self@.frontier[j as int]));
            let child_0 = self.make_tree_node(&self.frontier[j], false);
            let child_1 = self.make_tree_node(&self.frontier[j], true);
            next.push(child_0);
            next.push(child_1);
        }
        assert(next@.map_values(|n: GlimpseTreeNode| n@) =~= children(self@.keys, self@.frontier));
        next
    }

    /// The combined proofs of the live clients at some nodes.
    fn combine_proofs(&self, nodes: &Vec<GlimpseTreeNode>) -> (proofs: Vec<[u8; XOF_SIZE]>)
        requires
            forall|j: int|
                0 <= j < nodes@.len() ==> self.keys@.len() <= (#[trigger] nodes@[j])@.states.len(),
        ensures
            proof_views(proofs@) == live_proofs(
                self@.keys,
                nodes@.map_values(|n: GlimpseTreeNode| n@),
            ),
            proofs@.len() == alive_indices(self@.keys, self@.keys.len()).len(),
    {
        let ghost views = nodes@.map_values(|n: GlimpseTreeNode| n@);
        let mut proofs: Vec<[u8; XOF_SIZE]> = Vec::new();
        for i in 0..self.keys.len()
            invariant
                views == nodes@.map_values(|n: GlimpseTreeNode| n@),
                forall|j: int|
                    0 <= j < nodes@.len() ==> self.keys@.len() <= (
                    #[trigger] nodes@[j])@.states.len(),
                proofs@.len() == alive_indices(self@.keys, i as nat).len(),
                forall|p: int|
                    0 <= p < proofs@.len() ==> (#[trigger] proofs@[p])@ == combined_proof(
                        views,
                        alive_indices(self@.keys, i as nat)[p],
                        views.len(),
                    ),
        {
            if self.keys[i].0 {
                let mut proof_bytes = [0u8; XOF_SIZE];
                assert(proof_bytes@ =~= zero_proof());
                for j in 0..nodes.len()
                    invariant
                        i < self.keys@.len(),
                        views == nodes@.map_values(|n: GlimpseTreeNode| n@),
                        forall|k: int|
                            0 <= k < nodes@.len() ==> self.keys@.len() <= (
                            #[trigger] nodes@[k])@.states.len(),
                        proof_bytes@ == combined_proof(views, i as int, j as nat),
                {
                    assert(self.keys@.len() <= nodes@[j as int]@.states.len());
                    xor_in_place(&mut proof_bytes, nodes[j].key_states[i].carried_proof());
                }
                proofs.push(proof_bytes);
            }
        }
        assert(proof_views(proofs@) =~= live_proofs(self@.keys, views));
        proofs
    }

    /// The least power of two that is at least `n`.
    fn count_leaves(n: usize) -> (size: usize)
        requires
            n <= usize::MAX / 2,
        ensures
            size == leaf_count(n as nat),
            size >= 1,
    {
        let mut size: usize = 1;
        while size < n
            invariant
                n <= usize::MAX / 2,
                size >= 1,
                doubled_up_to(size as nat, n as nat) == leaf_count(n as nat),
            decreases usize::MAX - size,
        {
            size = 2 * size;
        }
        size
    }

    /// The Merkle root of the `j`th chunk of `size` proofs.
    fn chunk_root(proofs: &Vec<[u8; XOF_SIZE]>, size: usize, j: usize) -> (root: [u8; XOF_SIZE])
        requires
            size >= 1,
            j < chunk_count(proofs@.len(), size as nat),
        ensures
            root@ == tree_root(chunk(proof_views(proofs@), size as nat, j as int)),
    {
        let count = proofs.len();
        proof {
            lemma_chunk_starts(count as nat, size as nat, j as int);
        }
        let start = j * size;
        let end = if size < count - start {
            start + size
        } else {
            count
        };
        let leaves = slice_subrange(proofs.as_slice(), start, end);
        assert(proof_views(leaves@) =~= chunk(proof_views(proofs@), size as nat, j as int));
        merkle_root(leaves)
    }

    /// Takes the clients at the given places among the live ones out of the count.
    fn drop_suspects(&mut self, malicious: &Vec<usize>)
        ensures
            final(self)@ == (CollectionView {
                keys: without_suspects(old(self)@.keys, malicious@),
                ..old(self)@
            }),
    {
        let ghost before = self@;
        let n = self.keys.len();
        let mut alive: Vec<usize> = Vec::new();
        for i in 0..n
            invariant
                n == self.keys@.len(),
                self@ == before,
                alive@.len() == alive_indices(before.keys, i as nat).len(),
                forall|p: int|
                    0 <= p < alive@.len() ==> #[trigger] alive@[p] == alive_indices(
                        before.keys,
                        i as nat,
                    )[p],
        {
            if self.keys[i].0 {
                alive.push(i);
            }
        }
        proof {
            lemma_alive_indices(before.keys, n as nat);
        }
        assert(before.keys =~= without_suspects(before.keys, malicious@.take(0)));
        for m in 0..malicious.len()
            invariant
                n == self.keys@.len(),
                n == before.keys.len(),
                self@ == (CollectionView {
                    keys: without_suspects(before.keys, malicious@.take(m as int)),
                    ..before
                }),
                alive@.len() == alive_indices(before.keys, n as nat).len(),
                forall|p: int|
                    0 <= p < alive@.len() ==> 0 <= #[trigger] alive@[p] < n && alive@[p]
                        == alive_indices(before.keys, n as nat)[p],
        {
            let pos = malicious[m];
            let ghost earlier = malicious@.take(m as int);
            let ghost now = malicious@.take(m + 1);
            let ghost keys = self@.keys;
            assert(keys == without_suspects(before.keys, earlier));
            assert(now.drop_last() =~= earlier && now.last() == pos);
            if pos < alive.len() {
                let abs = alive[pos];
                self.keys[abs].0 = false;
            }
            assert(self@.keys =~= without_suspects(before.keys, now)) by {
                assert forall|i: int| 0 <= i < n implies is_suspect(before.keys, now, i) == (
                is_suspect(before.keys, earlier, i) || (pos < alive@.len() && alive@[pos as int]
                    == i)) by {
                    if is_suspect(before.keys, earlier, i) {
                        let k = choose|k: int|
                            0 <= k < earlier.len() && (#[trigger] earlier[k]) < alive@.len()
                                && alive_indices(before.keys, n as nat)[earlier[k] as int] == i;
                        assert(now[k] == earlier[k]);
                    }
                    if pos < alive@.len() && alive@[pos as int] == i {
                        assert(now[m as int] == pos);
                    }
                    if is_suspect(before.keys, now, i) {
                        let k = choose|k: int|
                            0 <= k < now.len() && (#[trigger] now[k]) < alive@.len()
                                && alive_indices(before.keys, n as nat)[now[k] as int] == i;
                        if k < m {
                            assert(earlier[k] == now[k]);
                        }
                    }
                }
                assert forall|i: int| 0 <= i < n implies #[trigger] self@.keys[i] == (
                    keys[i].0 && !(pos < alive@.len() && alive@[pos as int] == i),
                    keys[i].1,
                ) by {
                    assert(self@.keys[i] == (self.keys@[i].0, self.keys@[i].1@));
                }
            }
        }
        assert(malicious@.take(malicious@.len() as int) =~= malicious@);
    }

    /// The roots of the given chunks of the proofs.
    fn roots_at(proofs: &Vec<[u8; XOF_SIZE]>, size: usize, indices: &Vec<usize>) -> (roots: Vec<
        [u8; XOF_SIZE],
    >)
        requires
            size >= 1,
            forall|m: int|
                0 <= m < indices@.len() ==> (#[trigger] indices@[m]) < chunk_count(
                    proofs@.len(),
                    size as nat,
                ),
        ensures
            proof_views(roots@) == chunk_roots(proof_views(proofs@), size as nat, indices@),
    {
        let mut roots: Vec<[u8; XOF_SIZE]> = Vec::new();
        for m in 0..indices.len()
            invariant
                size >= 1,
                forall|k: int|
                    0 <= k < indices@.len() ==> (#[trigger] indices@[k]) < chunk_count(
                        proofs@.len(),
                        size as nat,
                    ),
                roots@.len() == m,
                forall|k: int|
                    0 <= k < m ==> (#[trigger] roots@[k])@ == tree_root(
                        chunk(proof_views(proofs@), size as nat, indices@[k] as int),
                    ),
        {
            roots.push(Self::chunk_root(proofs, size, indices[m]));
        }
        assert(proof_views(roots@) =~= chunk_roots(
            proof_views(proofs@),
            size as nat,
            indices@,
        ));
        roots
    }

    /// The halves of the suspected chunks, as far as there are any.
    fn halve(malicious: &Vec<usize>, count: usize) -> (indices: Vec<usize>)
        requires
            forall|m: int| 0 <= m < malicious@.len() ==> 2 * (#[trigger] malicious@[m]) < count,
        ensures
            indices@ == halves(malicious@, count as nat, malicious@.len()),
            forall|m: int| 0 <= m < indices@.len() ==> (#[trigger] indices@[m]) < count,
    {
        let mut indices: Vec<usize> = Vec::new();
        for m in 0..malicious.len()
            invariant
                forall|k: int| 0 <= k < malicious@.len() ==> 2 * (#[trigger] malicious@[k]) < count,
                indices@ == halves(malicious@, count as nat, m as nat),
                forall|k: int| 0 <= k < indices@.len() ==> (#[trigger] indices@[k]) < count,
        {
            assert(2 * malicious@[m as int] < count);
            let left = 2 * malicious[m];
            indices.push(left);
            if left + 1 < count {
                indices.push(left + 1);
            }
        }
        indices
    }

    /// Moves the frontier one level on and computes the Merkle roots of the clients' combined
    /// proofs at the new level.
    ///
    /// With suspects the level is crawled again from the previous frontier: while the search goes on
    /// they are chunks of clients, whose halves are looked at, and at the last step they are places
    /// of clients, who are then taken out. The result is the sum of the live clients' values at each
    /// new node.
    pub fn tree_crawl(&mut self, split_by: usize, malicious: &Vec<usize>, is_last: bool) -> (r: Vec<
        EmbCnt,
    >)
        requires
            can_crawl(old(self)@, split_by, malicious@, is_last),
        ensures
            final(self)@ == crawl_view(old(self)@, split_by, malicious@, is_last),
            final(self)@.wf(),
            r@.map_values(|v: EmbCnt| v@) == node_values(final(self)@.frontier),
            r@.len() == final(self)@.frontier.len(),
            forall|j: int|
                0 <= j < r@.len() ==> (#[trigger] r@[j])@ == final(self)@.frontier[j].value,
    {
        let ghost before = self@;
        let ghost keys = crawl_keys(before, malicious@, is_last);
        let ghost start = crawl_start(before, malicious@);
        if malicious.len() > 0 {
            if is_last {
                self.drop_suspects(malicious);
            }
            self.frontier = copy_nodes(&self.prev_frontier);
        }
        assert(self@.keys == keys);
        assert(self@.frontier == start);
        let next = self.expand_frontier();
        let ghost next_view = children(keys, start);
        assert forall|j: int| 0 <= j < next@.len() implies self.keys@.len() <= (
        #[trigger] next@[j])@.states.len() by {
            let views = next@.map_values(|n: GlimpseTreeNode| n@);
            assert(views.len() == next@.len() && next_view.len() == 2 * start.len());
            assert(views == next_view && views[j] == next@[j]@);
            assert(next_view[j] == child_node(keys, start[j / 2], j % 2 == 1));
            assert(self@.keys.len() == self.keys@.len());
        }
        let proofs = self.combine_proofs(&next);

        let split = if is_last {
            1
        } else {
            split_by
        };
        proof {
            lemma_alive_indices(keys, keys.len());
        }
        let num_leaves = Self::count_leaves(proofs.len());
        let chunk_sz = num_leaves / split;
        let ghost live = proofs@.len();
        proof {
            lemma_whole_chunk(live, num_leaves as nat, split as nat);
        }
        let indices = if split == 1 {
            let mut only: Vec<usize> = Vec::new();
            only.push(0);
            assert(only@ =~= seq![0usize]);
            only
        } else {
            let count = if proofs.len() % chunk_sz == 0 {
                proofs.len() / chunk_sz
            } else {
                proofs.len() / chunk_sz + 1
            };
            proof {
                lemma_chunk_count(live, chunk_sz as nat);
            }
            Self::halve(malicious, count)
        };
        let roots = Self::roots_at(&proofs, chunk_sz, &indices);
        self.mtree_roots = roots;
        self.mtree_indices = indices;

        let mut started: Vec<GlimpseTreeNode> = next;
        std::mem::swap(&mut started, &mut self.frontier);
        self.prev_frontier = started;
        assert(self@ =~= crawl_view(before, split_by, malicious@, is_last));
        self.frontier_values()
    }

    /// The value at each node of the frontier.
    fn frontier_values(&self) -> (r: Vec<EmbCnt>)
        ensures
            r@.map_values(|v: EmbCnt| v@) == node_values(self@.frontier),
            r@.len() == self@.frontier.len(),
            forall|j: int| 0 <= j < r@.len() ==> (#[trigger] r@[j])@ == self@.frontier[j].value,
    {
        let mut r: Vec<EmbCnt> = Vec::new();
        for j in 0..self.frontier.len()
            invariant
                r@.len() == j,
                forall|k: int| 0 <= k < j ==> (#[trigger] r@[k])@ == self@.frontier[k].value,
        {
            r.push(self.frontier[j].value.clone());
        }
        assert(r@.map_values(|v: EmbCnt| v@) =~= node_values(self@.frontier));
        r
    }

    /// How many Merkle roots there are.
    pub fn get_mtree_roots_size(&self) -> (r: usize)
        ensures
            r == self@.roots.len(),
    {
        self.mtree_roots.len()
    }

    /// The Merkle roots from `start` to `end`, as far as there are any, with their chunks.
    pub fn get_merkle_roots(&self, start: usize, end: usize) -> (r: (
        Vec<[u8; XOF_SIZE]>,
        Vec<usize>,
    ))
        requires
            self@.wf(),
        ensures
            ({
                let stop = if end < self@.roots.len() {
                    end as int
                } else {
                    self@.roots.len() as int
                };
                &&& proof_views(r.0@) == window(self@.roots, start as int, stop)
                &&& r.1@ == window(self@.indices, start as int, stop)
                &&& r.0@.len() == r.1@.len()
                &&& start < stop ==> r.0@.len() == stop - start
                &&& start >= stop ==> r.0@.len() == 0
                &&& forall|k: int|
                    0 <= k < r.0@.len() ==> (#[trigger] r.0@[k])@ == self@.roots[start + k]
                &&& forall|k: int|
                    0 <= k < r.1@.len() ==> #[trigger] r.1@[k] == self@.indices[start + k]
            }),
    {
        let stop = if end > self.mtree_roots.len() {
            self.mtree_roots.len()
        } else {
            end
        };
        if stop > start {
            let r = (
                copy_range(&self.mtree_roots, start, stop),
                copy_range(&self.mtree_indices, start, stop),
            );
            assert(proof_views(r.0@) =~= self@.roots.subrange(start as int, stop as int));
            r
        } else {
            let r: (Vec<[u8; XOF_SIZE]>, Vec<usize>) = (Vec::new(), Vec::new());
            assert(proof_views(r.0@) =~= Seq::empty());
            r
        }
    }

    /// This server's shares of the sketches of the clients `start..end` over the frontier, all of
    /// them weighed alike, and for each of these clients the vector that was sketched: the shares of
    /// the count and of its authentication code at every node of the frontier.
    pub fn tree_sketch_frontier(&mut self, start: usize, end: usize) -> (out: (
        Vec<SketchOutput<FE>>,
        Vec<Vec<(FE, FE)>>,
    ))
        requires
            start < end <= old(self)@.keys.len(),
            forall|j: int|
                0 <= j < old(self)@.frontier.len() ==> end <= (#[trigger] old(
                    self,
                )@.frontier[j]).values.len(),
        ensures
            final(self)@ == old(self)@,
            out.0@.len() == end - start,
            forall|i: int|
                0 <= i < out.0@.len() ==> (#[trigger] out.0@[i])@ == sketch_view(
                    client_counts(old(self)@.frontier, start + i),
                    client_codes(old(self)@.frontier, start + i),
                    old(self)@.stream,
                ),
            out.1@.len() == end - start,
            forall|i: int|
                0 <= i < out.1@.len() ==> firsts((#[trigger] out.1@[i])@) == client_counts(
                    old(self)@.frontier,
                    start + i,
                ) && seconds(out.1@[i]@) == client_codes(old(self)@.frontier, start + i),
    {
        let ghost frontier = self@.frontier;
        let mut sketches: Vec<SketchOutput<FE>> = Vec::new();
        let mut eval_vectors: Vec<Vec<(FE, FE)>> = Vec::new();
        for i in start..end
            invariant
                self@ == old(self)@,
                frontier == self@.frontier,
                end <= self.keys@.len(),
                forall|j: int|
                    0 <= j < frontier.len() ==> end <= (#[trigger] frontier[j]).values.len(),
                sketches@.len() == i - start,
                forall|k: int|
                    0 <= k < sketches@.len() ==> (#[trigger] sketches@[k])@ == sketch_view(
                        client_counts(frontier, start + k),
                        client_codes(frontier, start + k),
                        self@.stream,
                    ),
                eval_vectors@.len() == i - start,
                forall|k: int|
                    0 <= k < eval_vectors@.len() ==> firsts((#[trigger] eval_vectors@[k])@)
                        == client_counts(frontier, start + k) && seconds(eval_vectors@[k]@)
                        == client_codes(frontier, start + k),
        {
            let vector = self.client_vector(i);
            let mut stream = self.rand_stream;
            sketches.push(self.keys[i].1.sketch_at(&vector, &mut stream));
            eval_vectors.push(vector);
        }
        (sketches, eval_vectors)
    }

    /// Client `i`'s shares of the count and of its authentication code at the nodes of the frontier.
    fn client_vector(&self, i: usize) -> (vector: Vec<(FE, FE)>)
        requires
            forall|j: int|
                0 <= j < self@.frontier.len() ==> i < (#[trigger] self@.frontier[j]).values.len(),
        ensures
            firsts(vector@) == client_counts(self@.frontier, i as int),
            seconds(vector@) == client_codes(self@.frontier, i as int),
    {
        let ghost frontier = self@.frontier;
        let mut vector: Vec<(FE, FE)> = Vec::new();
        for j in 0..self.frontier.len()
            invariant
                frontier == self@.frontier,
                forall|k: int|
                    0 <= k < frontier.len() ==> i < (#[trigger] frontier[k]).values.len(),
                vector@.len() == j,
                forall|k: int|
                    0 <= k < j ==> (#[trigger] vector@[k]).0@ == client_counts(
                        frontier,
                        i as int,
                    )[k] && vector@[k].1@ == client_codes(frontier, i as int)[k],
        {
            assert(i < frontier[j as int].values.len());
            let node = &self.frontier[j];
            assert(frontier[j as int] == node@);
            let pair = (node.key_values[i].0.count, node.key_values[i].1);
            assert(node@.values[i as int] == node.key_values@[i as int]@);
            vector.push(pair);
        }
        assert(firsts(vector@) =~= client_counts(frontier, i as int));
        assert(seconds(vector@) =~= client_codes(frontier, i as int));
        vector
    }

    /// Takes the clients without a set flag out of the count.
    pub fn apply_sketch_results(&mut self, res: &[bool])
        requires
            res@.len() == old(self)@.keys.len(),
        ensures
            final(self)@ == (CollectionView {
                keys: judged(old(self)@.keys, res@),
                ..old(self)@
            }),
            final(self)@.keys.len() == old(self)@.keys.len(),
            forall|i: int|
                0 <= i < res@.len() && !res@[i] ==> !(#[trigger] final(self)@.keys[i]).0,
            forall|i: int|
                0 <= i < res@.len() && res@[i] ==> (#[trigger] final(self)@.keys[i]).0 == old(
                    self,
                )@.keys[i].0,
            forall|i: int|
                0 <= i < res@.len() ==> (#[trigger] final(self)@.keys[i]).1 == old(
                    self,
                )@.keys[i].1,
    {
        let ghost before = self@;
        for i in 0..res.len()
            invariant
                res@.len() == before.keys.len(),
                self.keys@.len() == before.keys.len(),
                self@ == (CollectionView { keys: self@.keys, ..before }),
                forall|j: int|
                    0 <= j < i ==> #[trigger] self@.keys[j] == (
                        before.keys[j].0 && res@[j],
                        before.keys[j].1,
                    ),
                forall|j: int|
                    i <= j < before.keys.len() ==> #[trigger] self@.keys[j] == before.keys[j],
        {
            let ghost keys = self@.keys;
            let alive = self.keys[i].0 && res[i];
            self.keys[i].0 = alive;
            assert forall|j: int| 0 <= j < before.keys.len() implies #[trigger] self@.keys[j] == (
                if j == i {
                    alive
                } else {
                    keys[j].0
                },
                keys[j].1,
            ) by {
                assert(self@.keys[j] == (self.keys@[j].0, self.keys@[j].1@));
            }
        }
        assert(self@.keys =~= judged(before.keys, res@));
    }

    /// Moves the frontier to the last level and keeps the live clients' combined proofs. The result
    /// is the sum of the live clients' values at each new node.
    pub fn tree_crawl_last(&mut self) -> (r: Vec<EmbCnt>)
        requires
            forall|j: int|
                0 <= j < old(self)@.frontier.len() ==> can_expand(
                    old(self)@.keys,
                    #[trigger] old(self)@.frontier[j],
                ),
        ensures
            ({
                let next = children(old(self)@.keys, old(self)@.frontier);
                final(self)@ == (CollectionView {
                    frontier: next,
                    final_proofs: live_proofs(old(self)@.keys, next),
                    ..old(self)@
                })
            }),
            r@.map_values(|v: EmbCnt| v@) == node_values(final(self)@.frontier),
            r@.len() == final(self)@.frontier.len(),
            forall|j: int|
                0 <= j < r@.len() ==> (#[trigger] r@[j])@ == final(self)@.frontier[j].value,
    {
        let ghost before = self@;
        let next = self.expand_frontier();
        let ghost next_view = children(before.keys, before.frontier);
        assert forall|j: int| 0 <= j < next@.len() implies self.keys@.len() <= (
        #[trigger] next@[j])@.states.len() by {
            let views = next@.map_values(|n: GlimpseTreeNode| n@);
            assert(views.len() == next@.len() && next_view.len() == 2 * before.frontier.len());
            assert(views == next_view && views[j] == next@[j]@);
            assert(next_view[j] == child_node(before.keys, before.frontier[j / 2], j % 2 == 1));
            assert(self@.keys.len() == self.keys@.len());
        }
        self.final_proofs = self.combine_proofs(&next);
        self.frontier = next;
        self.frontier_values()
    }

    /// For each node of the frontier all clients' shares at it.
    pub fn get_y_values(&self) -> (r: Vec<&Vec<(EmbCnt, FE)>>)
        ensures
            r@.len() == self@.frontier.len(),
            forall|j: int|
                0 <= j < r@.len() ==> (#[trigger] r@[j])@.map_values(|v: (EmbCnt, FE)| v@)
                    == self@.frontier[j].values,
    {
        let mut r: Vec<&Vec<(EmbCnt, FE)>> = Vec::new();
        for j in 0..self.frontier.len()
            invariant
                r@.len() == j,
                forall|k: int|
                    0 <= k < j ==> (#[trigger] r@[k])@.map_values(|v: (EmbCnt, FE)| v@)
                        == self@.frontier[k].values,
        {
            r.push(&self.frontier[j].key_values);
        }
        r
    }

    /// The combined proofs from `start` to `end`, or none where these are not all there.
    pub fn get_proofs(&self, start: usize, end: usize) -> (r: Vec<[u8; XOF_SIZE]>)
        ensures
            proof_views(r@) == if end <= self@.final_proofs.len() {
                window(self@.final_proofs, start as int, end as int)
            } else {
                Seq::empty()
            },
            start < end <= self@.final_proofs.len() ==> r@.len() == end - start,
            !(start < end <= self@.final_proofs.len()) ==> r@.len() == 0,
            forall|k: int|
                0 <= k < r@.len() ==> (#[trigger] r@[k])@ == self@.final_proofs[start + k],
    {
        if end > start && end <= self.final_proofs.len() {
            let proofs = copy_range(&self.final_proofs, start, end);
            assert(proof_views(proofs@) =~= self@.final_proofs.subrange(start as int, end as int));
            proofs
        } else {
            let none: Vec<[u8; XOF_SIZE]> = Vec::new();
            assert(proof_views(none@) =~= Seq::empty());
            none
        }
    }

    /// Removes the nodes without a set flag from the frontier.
    pub fn tree_prune(&mut self, alive_vals: &[bool])
        requires
            alive_vals@.len() <= old(self)@.frontier.len(),
        ensures
            final(self)@ == (CollectionView {
                frontier: kept(old(self)@.frontier, alive_vals@, 0),
                ..old(self)@
            }),
    {
        let ghost before = self@;
        let ghost all = self@.frontier;
        let mut i = alive_vals.len();
        proof {
            lemma_kept_beyond(all, alive_vals@, i as int);
            assert(all =~= all.take(i as int) + all.skip(i as int));
        }
        while i > 0
            invariant
                i <= alive_vals@.len() <= all.len(),
                self@ == (CollectionView {
                    frontier: all.take(i as int) + kept(all, alive_vals@, i as int),
                    ..before
                }),
            decreases i,
        {
            i = i - 1;
            let ghost rest = kept(all, alive_vals@, i + 1);
            let ghost nodes = self.frontier@;
            assert(self@.frontier.len() == nodes.len());
            if !alive_vals[i] {
                self.frontier.remove(i);
                assert(self@.frontier =~= all.take(i as int) + rest) by {
                    let views = nodes.map_values(|n: GlimpseTreeNode| n@);
                    assert(views == all.take(i + 1) + rest);
                    assert forall|j: int| 0 <= j < self@.frontier.len() implies
                        #[trigger] self@.frontier[j] == if j < i {
                        views[j]
                    } else {
                        views[j + 1]
                    } by {
                    }
                }
            } else {
                assert(self@.frontier =~= all.take(i as int) + (seq![all[i as int]] + rest));
            }
        }
        assert(self@.frontier =~= kept(all, alive_vals@, 0));
    }

    /// This server's shares of the values at the nodes of the frontier.
    pub fn final_shares(&self) -> (r: Vec<Result<EmbCnt>>)
        ensures
            r@.map_values(|x: Result<EmbCnt>| x@) == shares_view(self@.frontier),
            r@.len() == self@.frontier.len(),
            forall|j: int|
                0 <= j < r@.len() ==> (#[trigger] r@[j]).path@ == self@.frontier[j].path
                    && r@[j].value@ == self@.frontier[j].value,
    {
        let mut r: Vec<Result<EmbCnt>> = Vec::new();
        for j in 0..self.frontier.len()
            invariant
                r@.len() == j,
                forall|k: int|
                    0 <= k < j ==> (#[trigger] r@[k])@ == shares_view(self@.frontier)[k],
        {
            let node = &self.frontier[j];
            let share = Result { path: node.path.clone(), value: node.value.clone() };
            assert(share@ =~= shares_view(self@.frontier)[j as int]);
            r.push(share);
        }
        assert(r@.map_values(|x: Result<EmbCnt>| x@) =~= shares_view(self@.frontier));
        assert forall|j: int| 0 <= j < r@.len() implies (#[trigger] r@[j]).path@
            == self@.frontier[j].path && r@[j].value@ == self@.frontier[j].value by {
            assert(r@[j]@ == shares_view(self@.frontier)[j]);
        }
        r
    }

    /// Adds up two servers' shares and keeps the nodes with a positive count.
    pub fn final_values(results_0: &[Result<EmbCnt>], results_1: &[Result<EmbCnt>]) -> (r: Vec<
        Result<EmbCnt>,
    >)
        ensures
            r@.map_values(|x: Result<EmbCnt>| x@) == joined(
                results_0@.map_values(|x: Result<EmbCnt>| x@),
                results_1@.map_values(|x: Result<EmbCnt>| x@),
                shorter(results_0@.len(), results_1@.len()),
            ),
    {
        let ghost views_0 = results_0@.map_values(|x: Result<EmbCnt>| x@);
        let ghost views_1 = results_1@.map_values(|x: Result<EmbCnt>| x@);
        let n = if results_0.len() < results_1.len() {
            results_0.len()
        } else {
            results_1.len()
        };
        let mut r: Vec<Result<EmbCnt>> = Vec::new();
        assert(r@.map_values(|x: Result<EmbCnt>| x@) =~= joined(views_0, views_1, 0));
        for i in 0..n
            invariant
                n == shorter(results_0@.len(), results_1@.len()),
                views_0 == results_0@.map_values(|x: Result<EmbCnt>| x@),
                views_1 == results_1@.map_values(|x: Result<EmbCnt>| x@),
                r@.map_values(|x: Result<EmbCnt>| x@) == joined(views_0, views_1, i as nat),
        {
            let mut v = EmbCnt::zero();
            v.add(&results_0[i].value);
            v.add(&results_1[i].value);
            v.count.bounded();
            let ghost before = r@;
            if v.count.value() > 0 {
                let joint = Result { path: results_0[i].path.clone(), value: v };
                assert(joint.path@ =~= results_0@[i as int].path@);
                r.push(joint);
            }
            assert(r@.map_values(|x: Result<EmbCnt>| x@) =~= joined(
                views_0,
                views_1,
                (i + 1) as nat,
            ));
        }
        r
    }
}

impl Clone for GlimpseKeyCollection {
    fn clone(&self) -> (r: Self)
        ensures
            r@ == self@,
    {
        let mut keys: Vec<(bool, SketchDPFKey)> = Vec::new();
        for i in 0..self.keys.len()
            invariant
                keys@.len() == i,
                forall|j: int|
                    0 <= j < i ==> (#[trigger] keys@[j]).0 == self.keys@[j].0 && keys@[j].1@
                        == self.keys@[j].1@,
        {
            keys.push((self.keys[i].0, self.keys[i].1.clone()));
        }
        assert(keys_view(keys@) =~= keys_view(self.keys@));
        GlimpseKeyCollection {
            depth: self.depth,
            keys,
            frontier: copy_nodes(&self.frontier),
            prev_frontier: copy_nodes(&self.prev_frontier),
            final_proofs: self.final_proofs.clone(),
            mtree_roots: self.mtree_roots.clone(),
            mtree_indices: self.mtree_indices.clone(),
            rand_stream: self.rand_stream,
        }
    }
}

/// Beyond the flags everything is kept.
proof fn lemma_kept_beyond<A>(s: Seq<A>, flags: Seq<bool>, i: int)
    requires
        0 <= flags.len() <= i <= s.len(),
    ensures
        kept(s, flags, i) == s.skip(i),
    decreases s.len() - i,
{
    if i < s.len() {
        lemma_kept_beyond(s, flags, i + 1);
        assert(s.skip(i) =~= seq![s[i]] + s.skip(i + 1));
    } else {
        assert(s.skip(i) =~= Seq::empty());
    }
}

/// A copy of the elements from `start` to `end`.
fn copy_range<T: Copy>(v: &Vec<T>, start: usize, end: usize) -> (r: Vec<T>)
    requires
        start <= end <= v@.len(),
    ensures
        r@ == v@.subrange(start as int, end as int),
{
    let mut r: Vec<T> = Vec::new();
    for i in start..end
        invariant
            end <= v@.len(),
            r@ == v@.subrange(start as int, i as int),
    {
        r.push(v[i]);
        assert(r@ =~= v@.subrange(start as int, i + 1));
    }
    r
}

/// A copy of a list of nodes.
fn copy_nodes(nodes: &Vec<GlimpseTreeNode>) -> (r: Vec<GlimpseTreeNode>)
    ensures
        r@.map_values(|n: GlimpseTreeNode| n@) == nodes@.map_values(|n: GlimpseTreeNode| n@),
{
    let mut r: Vec<GlimpseTreeNode> = Vec::new();
    for i in 0..nodes.len()
        invariant
            r@.len() == i,
            forall|j: int| 0 <= j < i ==> (#[trigger] r@[j])@ == nodes@[j]@,
    {
        r.push(nodes[i].clone());
    }
    assert(r@.map_values(|n: GlimpseTreeNode| n@) =~= nodes@.map_values(|n: GlimpseTreeNode| n@));
    r
}

} // verus!
