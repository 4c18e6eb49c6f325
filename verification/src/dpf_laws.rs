//! What the two shares of an honestly generated key promise together.
use vstd::prelude::*;
use vstd::utf8::{is_ascii_chars, is_ascii_chars_encode_utf8};

use crate::bits::bitstring_view;
use crate::consts::{SEED_SIZE, XOF_SIZE};
use crate::dpf::{
    eval_control, eval_hash, eval_seed, eval_state, eval_word, gen_state, honest_pair, label,
    lemma_state_proof_irrelevant, node_hash, state_at, word_at, zero_proof, GenState, KeyView,
    StateView,
};
use crate::hash::blake3_digest;
use crate::prg::{child_bit, child_seed, next_seed, payload_stream, xor_view, FromRng};

verus! {

/// Exclusive-oring twice with the same bytes changes nothing.
pub proof fn lemma_xor_cancel(a: Seq<u8>, b: Seq<u8>)
    requires
        a.len() == b.len(),
    ensures
        xor_view(xor_view(a, b), b) == a,
        xor_view(xor_view(a, b), a) == b,
        xor_view(a, xor_view(a, b)) == b,
        xor_view(b, xor_view(a, b)) == a,
{
    assert forall|i: int| 0 <= i < a.len() implies (a[i] ^ b[i]) ^ b[i] == a[i] && (a[i] ^ b[i])
        ^ a[i] == b[i] && a[i] ^ (a[i] ^ b[i]) == b[i] && b[i] ^ (a[i] ^ b[i]) == a[i] by {
        let x = a[i];
        let y = b[i];
        assert((x ^ y) ^ y == x && (x ^ y) ^ x == y && x ^ (x ^ y) == y && y ^ (x ^ y) == x)
            by (bit_vector);
    }
    assert(xor_view(xor_view(a, b), b) =~= a);
    assert(xor_view(xor_view(a, b), a) =~= b);
    assert(xor_view(a, xor_view(a, b)) =~= b);
    assert(xor_view(b, xor_view(a, b)) =~= a);
}

/// On the path the parties' control bits differ.
proof fn lemma_gen_bits_differ(alpha: Seq<bool>, seed_0: Seq<u8>, seed_1: Seq<u8>, n: nat)
    ensures
        gen_state(alpha, seed_0, seed_1, n).bits.0 != gen_state(alpha, seed_0, seed_1, n).bits.1,
    decreases n,
{
    if n > 0 {
        lemma_gen_bits_differ(alpha, seed_0, seed_1, (n - 1) as nat);
    }
}

/// Whether `path` is where `alpha` starts.
pub open spec fn on_path(alpha: Seq<bool>, path: Seq<bool>) -> bool {
    path.len() <= alpha.len() && path == alpha.take(path.len() as int)
}

/// Along the path, evaluating a key retraces its generation.
proof fn lemma_on_path<T: FromRng>(
    k0: KeyView<T::V>,
    k1: KeyView<T::V>,
    alpha: Seq<bool>,
    values: Seq<T::V>,
    proof_: Seq<u8>,
    path: Seq<bool>,
)
    requires
        honest_pair::<T>(k0, k1, alpha, values),
        on_path(alpha, path),
    ensures
        ({
            let st = gen_state(alpha, k0.root_seed, k1.root_seed, path.len());
            let st_0 = state_at(k0, proof_, path);
            let st_1 = state_at(k1, proof_, path);
            &&& st_0.level == path.len()
            &&& st_1.level == path.len()
            &&& (st_0.seed, st_1.seed) == st.seeds
            &&& (st_0.bit, st_1.bit) == st.bits
        }),
    decreases path.len(),
{
    if path.len() > 0 {
        let up = path.drop_last();
        assert(up =~= alpha.take(up.len() as int));
        lemma_on_path::<T>(k0, k1, alpha, values, proof_, up);
        assert(path.last() == alpha[up.len() as int]);
    }
}

/// Off the path the parties' states agree.
proof fn lemma_off_path<T: FromRng>(
    k0: KeyView<T::V>,
    k1: KeyView<T::V>,
    alpha: Seq<bool>,
    values: Seq<T::V>,
    proof_: Seq<u8>,
    path: Seq<bool>,
)
    requires
        honest_pair::<T>(k0, k1, alpha, values),
        path.len() <= alpha.len(),
        !on_path(alpha, path),
    ensures
        ({
            let up = path.drop_last();
            let st_0 = state_at(k0, proof_, up);
            let st_1 = state_at(k1, proof_, up);
            &&& path.len() > 0
            &&& st_0.level == up.len()
            &&& st_1.level == up.len()
            &&& eval_seed(k0, st_0, path.last()) == eval_seed(k1, st_1, path.last())
            &&& eval_control(k0, st_0, path.last()) == eval_control(k1, st_1, path.last())
        }),
    decreases path.len(),
{
    if path.len() == 0 {
        assert(path =~= alpha.take(0));
    } else {
        let up = path.drop_last();
        let n = up.len() as int;
        assert(k0.cor_words[n] == k1.cor_words[n]);
        if on_path(alpha, up) {
            lemma_on_path::<T>(k0, k1, alpha, values, proof_, up);
            if path.last() == alpha[n] {
                assert(path =~= alpha.take(path.len() as int));
            }
            let st = gen_state(alpha, k0.root_seed, k1.root_seed, up.len());
            lemma_gen_bits_differ(alpha, k0.root_seed, k1.root_seed, up.len());
            let lost_0 = child_seed(st.seeds.0, path.last());
            let lost_1 = child_seed(st.seeds.1, path.last());
            lemma_xor_cancel(lost_0, lost_1);
        } else {
            lemma_off_path::<T>(k0, k1, alpha, values, proof_, up);
        }
    }
}

/// The shares of an honestly generated pair add up to the payload that was planted where the path
/// leads through the node, and to zero everywhere else.
pub proof fn law_reconstruction<T: FromRng>(
    k0: KeyView<T::V>,
    k1: KeyView<T::V>,
    alpha: Seq<bool>,
    values: Seq<T::V>,
    path: Seq<bool>,
)
    requires
        honest_pair::<T>(k0, k1, alpha, values),
        values.len() == alpha.len(),
        forall|i: int| 0 <= i < values.len() ==> T::valid(#[trigger] values[i]),
        0 < path.len() <= alpha.len(),
    ensures
        T::add_view(word_at::<T>(k0, path), word_at::<T>(k1, path)) == if on_path(alpha, path) {
            values[path.len() - 1]
        } else {
            T::zero_view()
        },
{
    let up = path.drop_last();
    let n = up.len() as int;
    let dir = path.last();
    let st_0 = state_at(k0, zero_proof(), up);
    let st_1 = state_at(k1, zero_proof(), up);
    let value = values[n];
    T::lemma_closed(value, value);
    let d0 = T::drawn(payload_stream(eval_seed(k0, st_0, dir)));
    let d1 = T::drawn(payload_stream(eval_seed(k1, st_1, dir)));
    T::lemma_drawn(payload_stream(eval_seed(k0, st_0, dir)));
    T::lemma_drawn(payload_stream(eval_seed(k1, st_1, dir)));
    let cor = k0.cor_words[n].word;
    assert(cor == k1.cor_words[n].word);
    let st = gen_state(alpha, k0.root_seed, k1.root_seed, up.len());
    if on_path(alpha, path) {
        assert(up =~= alpha.take(n));
        lemma_on_path::<T>(k0, k1, alpha, values, zero_proof(), up);
        lemma_gen_bits_differ(alpha, k0.root_seed, k1.root_seed, path.len());
        assert(st.next(alpha[n]) == gen_state(alpha, k0.root_seed, k1.root_seed, path.len()));
        assert(dir == alpha[n]);
        lemma_payloads_cancel::<T>(value, d0, d1);
    } else {
        lemma_off_path::<T>(k0, k1, alpha, values, zero_proof(), path);
        let bit = eval_control(k0, st_0, dir);
        lemma_cor_payload_valid::<T>(st, alpha[n], value);
        T::lemma_closed(d0, cor);
        let word = if bit {
            T::add_view(d0, cor)
        } else {
            d0
        };
        T::lemma_inverse(word, word);
    }
}

/// The shares of an honestly generated pair are valid where the payloads are.
pub proof fn lemma_word_valid<T: FromRng>(
    k0: KeyView<T::V>,
    k1: KeyView<T::V>,
    alpha: Seq<bool>,
    values: Seq<T::V>,
    path: Seq<bool>,
)
    requires
        honest_pair::<T>(k0, k1, alpha, values),
        values.len() == alpha.len(),
        forall|i: int| 0 <= i < values.len() ==> T::valid(#[trigger] values[i]),
        0 < path.len() <= alpha.len(),
    ensures
        T::valid(word_at::<T>(k0, path)),
        T::valid(word_at::<T>(k1, path)),
{
    let up = path.drop_last();
    let n = up.len() as int;
    let dir = path.last();
    let st_0 = state_at(k0, zero_proof(), up);
    let st_1 = state_at(k1, zero_proof(), up);
    lemma_state_proof_irrelevant(k0, zero_proof(), zero_proof(), up);
    lemma_state_proof_irrelevant(k1, zero_proof(), zero_proof(), up);
    let st = gen_state(alpha, k0.root_seed, k1.root_seed, up.len());
    assert(T::valid(values[n]));
    lemma_cor_payload_valid::<T>(st, alpha[n], values[n]);
    let cor = k0.cor_words[n].word;
    assert(cor == st.cor_payload::<T>(alpha[n], values[n]));
    assert(cor == k1.cor_words[n].word);
    let d0 = T::drawn(payload_stream(eval_seed(k0, st_0, dir)));
    let d1 = T::drawn(payload_stream(eval_seed(k1, st_1, dir)));
    T::lemma_drawn(payload_stream(eval_seed(k0, st_0, dir)));
    T::lemma_drawn(payload_stream(eval_seed(k1, st_1, dir)));
    T::lemma_closed(d0, cor);
    T::lemma_closed(d1, cor);
    T::lemma_closed(d0, d0);
    T::lemma_closed(d1, d1);
    T::lemma_closed(T::add_view(d1, cor), d1);
}

/// A payload correction is valid where the payload is.
proof fn lemma_cor_payload_valid<T: FromRng>(st: GenState, bit: bool, value: T::V)
    requires
        T::valid(value),
    ensures
        T::valid(st.cor_payload::<T>(bit, value)),
{
    let s0 = payload_stream(st.kept_seed(bit, false));
    let s1 = payload_stream(st.kept_seed(bit, true));
    T::lemma_drawn(s0);
    T::lemma_drawn(s1);
    T::lemma_closed(value, T::drawn(s0));
    let diff = T::sub_view(value, T::drawn(s0));
    T::lemma_closed(diff, T::drawn(s1));
    let word = T::add_view(diff, T::drawn(s1));
    T::lemma_closed(word, word);
}

/// The algebra behind the payload correction: whichever party applies it, the shares `d0` and the
/// inverse of `d1` come to differ by exactly `value`.
proof fn lemma_payloads_cancel<T: FromRng>(value: T::V, d0: T::V, d1: T::V)
    requires
        T::valid(value),
        T::valid(d0),
        T::valid(d1),
    ensures
        ({
            let word = T::add_view(T::sub_view(value, d0), d1);
            &&& T::add_view(T::add_view(d0, word), T::neg_view(d1)) == value
            &&& T::add_view(d0, T::neg_view(T::add_view(d1, T::neg_view(word)))) == value
        }),
{
    let n0 = T::neg_view(d0);
    let n1 = T::neg_view(d1);
    T::lemma_closed(value, d0);
    T::lemma_closed(d0, d1);
    T::lemma_closed(d1, d1);
    T::lemma_closed(value, n0);
    let diff = T::sub_view(value, d0);
    T::lemma_closed(diff, d1);
    let word = T::add_view(diff, d1);
    T::lemma_closed(word, word);
    let nw = T::neg_view(word);
    // d0 + word == value + d1
    T::lemma_inverse(value, d0);
    assert(diff == T::add_view(value, n0));
    T::lemma_inverse(d0, d0);
    T::lemma_inverse(d1, d1);
    T::lemma_associative(d0, diff, d1);
    T::lemma_commutative(d0, diff);
    T::lemma_associative(value, n0, d0);
    T::lemma_commutative(n0, d0);
    assert(T::add_view(diff, d0) == T::add_view(value, T::zero_view()));
    T::lemma_inverse(value, value);
    assert(T::add_view(d0, word) == T::add_view(value, d1));
    // adding the inverse of d1 leaves value
    T::lemma_associative(value, d1, n1);
    assert(T::add_view(T::add_view(d0, word), n1) == value);
    // the inverse of d1 - word is word - d1
    lemma_neg_of_difference::<T>(d1, word);
    T::lemma_associative(d0, word, n1);
}

/// The inverse of a difference is the difference the other way round.
proof fn lemma_neg_of_difference<T: FromRng>(a: T::V, b: T::V)
    requires
        T::valid(a),
        T::valid(b),
    ensures
        T::neg_view(T::add_view(a, T::neg_view(b))) == T::add_view(b, T::neg_view(a)),
{
    let na = T::neg_view(a);
    let nb = T::neg_view(b);
    T::lemma_closed(a, b);
    T::lemma_closed(b, a);
    T::lemma_closed(a, nb);
    T::lemma_closed(b, na);
    let x = T::add_view(a, nb);
    let y = T::add_view(b, na);
    T::lemma_closed(x, y);
    let nx = T::neg_view(x);
    // x + y == 0
    T::lemma_associative(a, nb, y);
    T::lemma_associative(nb, b, na);
    T::lemma_commutative(nb, b);
    T::lemma_inverse(b, b);
    T::lemma_inverse(a, a);
    T::lemma_inverse(na, na);
    T::lemma_closed(na, na);
    T::lemma_commutative(T::zero_view(), na);
    assert(T::add_view(nb, y) == na);
    assert(T::add_view(x, y) == T::zero_view());
    // y == (nx + x) + y == nx
    T::lemma_inverse(x, x);
    T::lemma_closed(x, x);
    T::lemma_associative(nx, x, y);
    T::lemma_commutative(nx, x);
    T::lemma_inverse(nx, nx);
    T::lemma_inverse(y, y);
    T::lemma_commutative(T::zero_view(), y);
}

/// The two parties' control bits differ at the nodes on the path and agree at all others.
pub proof fn law_control_bits<T: FromRng>(
    k0: KeyView<T::V>,
    k1: KeyView<T::V>,
    alpha: Seq<bool>,
    values: Seq<T::V>,
    path: Seq<bool>,
)
    requires
        honest_pair::<T>(k0, k1, alpha, values),
        path.len() <= alpha.len(),
    ensures
        (state_at(k0, zero_proof(), path).bit != state_at(k1, zero_proof(), path).bit) == on_path(
            alpha,
            path,
        ),
{
    if on_path(alpha, path) {
        lemma_on_path::<T>(k0, k1, alpha, values, zero_proof(), path);
        lemma_gen_bits_differ(alpha, k0.root_seed, k1.root_seed, path.len());
    } else {
        lemma_off_path::<T>(k0, k1, alpha, values, zero_proof(), path);
    }
}

/// At the nodes off the path the two parties hold the same seed and the same control bit.
pub proof fn law_seeds_agree<T: FromRng>(
    k0: KeyView<T::V>,
    k1: KeyView<T::V>,
    alpha: Seq<bool>,
    values: Seq<T::V>,
    path: Seq<bool>,
)
    requires
        honest_pair::<T>(k0, k1, alpha, values),
        path.len() <= alpha.len(),
        !on_path(alpha, path),
    ensures
        state_at(k0, zero_proof(), path).seed == state_at(k1, zero_proof(), path).seed,
        state_at(k0, zero_proof(), path).bit == state_at(k1, zero_proof(), path).bit,
{
    lemma_off_path::<T>(k0, k1, alpha, values, zero_proof(), path);
}

/// The name of a node and the proof carried to it reach neither the seed nor the control bit nor
/// the payload share below. Under the same name two carried proofs keep their difference.
pub proof fn law_proof_kept_apart<T: FromRng>(
    k: KeyView<T::V>,
    a: StateView,
    b: StateView,
    dir: bool,
    name_a: Seq<u8>,
    name_b: Seq<u8>,
    aux: bool,
)
    requires
        a.level == b.level,
        a.seed == b.seed,
        a.bit == b.bit,
        a.proof.len() == XOF_SIZE,
        b.proof.len() == XOF_SIZE,
    ensures
        ({
            let next_a = eval_state(k, a, dir, name_a);
            let next_b = eval_state(k, b, dir, name_b);
            &&& next_a.level == next_b.level
            &&& next_a.seed == next_b.seed
            &&& next_a.bit == next_b.bit
            &&& eval_word::<T>(k, a, dir, aux) == eval_word::<T>(k, b, dir, aux)
            &&& name_a == name_b ==> xor_view(next_a.proof, next_b.proof) == xor_view(
                a.proof,
                b.proof,
            )
        }),
{
    let next_a = eval_state(k, a, dir, name_a);
    let next_b = eval_state(k, b, dir, name_b);
    if name_a == name_b {
        let hash = blake3_digest(eval_hash(k, a, dir, name_a))@;
        assert(next_a.proof == xor_view(hash, a.proof));
        assert(next_b.proof == xor_view(hash, b.proof));
        let left = xor_view(next_a.proof, next_b.proof);
        let right = xor_view(a.proof, b.proof);
        assert forall|i: int| 0 <= i < XOF_SIZE implies left[i] == right[i] by {
            let (h, x, y) = (hash[i], a.proof[i], b.proof[i]);
            assert((h ^ x) ^ (h ^ y) == x ^ y) by (bit_vector);
        }
        assert(left =~= right);
    }
}

/// The two parties of an honestly generated pair arrive at the same proof at every node.
pub proof fn law_proofs_agree<T: FromRng>(
    k0: KeyView<T::V>,
    k1: KeyView<T::V>,
    alpha: Seq<bool>,
    values: Seq<T::V>,
    start: Seq<u8>,
    path: Seq<bool>,
)
    requires
        honest_pair::<T>(k0, k1, alpha, values),
        path.len() <= alpha.len(),
    ensures
        state_at(k0, start, path).proof == state_at(k1, start, path).proof,
    decreases path.len(),
{
    if path.len() > 0 {
        let up = path.drop_last();
        let n = up.len() as int;
        let dir = path.last();
        law_proofs_agree::<T>(k0, k1, alpha, values, start, up);
        let st_0 = state_at(k0, start, up);
        let st_1 = state_at(k1, start, up);
        let name = label(path);
        assert(k0.cs[n] == k1.cs[n]);
        if on_path(alpha, path) {
            assert(up =~= alpha.take(n));
            lemma_on_path::<T>(k0, k1, alpha, values, start, up);
            lemma_gen_bits_differ(alpha, k0.root_seed, k1.root_seed, path.len());
            let st = gen_state(alpha, k0.root_seed, k1.root_seed, up.len());
            let child = gen_state(alpha, k0.root_seed, k1.root_seed, path.len());
            assert(child == st.next(alpha[n]));
            assert(dir == alpha[n]);
            assert(path == alpha.take(n + 1));
            lemma_xor_cancel(node_hash(name, child.seeds.0), node_hash(name, child.seeds.1));
            assert(k0.cs[n] == xor_view(
                node_hash(name, child.seeds.0),
                node_hash(name, child.seeds.1),
            ));
        } else {
            lemma_off_path::<T>(k0, k1, alpha, values, start, path);
        }
        assert(eval_hash(k0, st_0, dir, name) == eval_hash(k1, st_1, dir, name));
    }
}

/// The leading bytes of the digest of a node's name and a seed at it.
pub open spec fn named_digest(name: Seq<u8>, seed: Seq<u8>) -> Seq<u8> {
    blake3_digest(name + seed)@.take(XOF_SIZE as int)
}

/// At every level the proof is carried on by the digest of one value: the digest of the node's name
/// and its seed, with the level's proof correction exclusive-ored into it where the control bit is
/// set. Nothing else enters it, and byte by byte it is exclusive-ored onto the carried proof.
pub proof fn law_proof_step<V>(k: KeyView<V>, st: StateView, dir: bool, name: Seq<u8>)
    requires
        st.proof.len() == XOF_SIZE,
        k.cs[st.level as int].len() == XOF_SIZE,
    ensures
        ({
            let next = eval_state(k, st, dir, name);
            let digest = named_digest(name, next.seed);
            let hashed = Seq::new(
                XOF_SIZE as nat,
                |i: int|
                    if next.bit {
                        k.cs[st.level as int][i] ^ digest[i]
                    } else {
                        digest[i]
                    },
            );
            &&& eval_hash(k, st, dir, name) == hashed
            &&& next.level == st.level + 1
            &&& next.proof.len() == XOF_SIZE
            &&& forall|i: int|
                0 <= i < XOF_SIZE ==> #[trigger] next.proof[i] == blake3_digest(hashed)@[i]
                    ^ st.proof[i]
        }),
{
    let next = eval_state(k, st, dir, name);
    let digest = named_digest(name, next.seed);
    let hashed = Seq::new(
        XOF_SIZE as nat,
        |i: int|
            if next.bit {
                k.cs[st.level as int][i] ^ digest[i]
            } else {
                digest[i]
            },
    );
    assert(eval_hash(k, st, dir, name) =~= hashed);
}

/// Two keys that differ in a proof correction alone hash different values at the nodes of that level
/// whose control bit is set, and the same value at the others.
pub proof fn law_correction_enters<V>(
    k: KeyView<V>,
    cs: Seq<Seq<u8>>,
    st: StateView,
    dir: bool,
    name: Seq<u8>,
)
    requires
        k.cs[st.level as int].len() == XOF_SIZE,
        cs[st.level as int].len() == XOF_SIZE,
    ensures
        ({
            let other = KeyView { cs, ..k };
            let differ = eval_hash(k, st, dir, name) != eval_hash(other, st, dir, name);
            &&& eval_state(k, st, dir, name).seed == eval_state(other, st, dir, name).seed
            &&& eval_state(k, st, dir, name).bit == eval_state(other, st, dir, name).bit
            &&& differ == (eval_state(k, st, dir, name).bit && k.cs[st.level as int]
                != cs[st.level as int])
        }),
{
    let other = KeyView { cs, ..k };
    let digest = node_hash(name, next_seed(eval_seed(k, st, dir)));
    assert(eval_seed(k, st, dir) == eval_seed(other, st, dir));
    assert(eval_control(k, st, dir) == eval_control(other, st, dir));
    if eval_control(k, st, dir) {
        lemma_xor_cancel(k.cs[st.level as int], digest);
        lemma_xor_cancel(cs[st.level as int], digest);
    }
}

/// Where exactly one of two parties has its control bit set, both hash the same value if and only if
/// the proof correction that they share is the exclusive or of their two digests.
pub proof fn law_correction_decides<V>(
    k0: KeyView<V>,
    k1: KeyView<V>,
    st_0: StateView,
    st_1: StateView,
    dir: bool,
    name: Seq<u8>,
)
    requires
        st_0.level == st_1.level,
        k0.cs[st_0.level as int] == k1.cs[st_0.level as int],
        k0.cs[st_0.level as int].len() == XOF_SIZE,
        eval_state(k0, st_0, dir, name).bit != eval_state(k1, st_1, dir, name).bit,
    ensures
        ({
            let digest_0 = named_digest(name, eval_state(k0, st_0, dir, name).seed);
            let digest_1 = named_digest(name, eval_state(k1, st_1, dir, name).seed);
            (eval_hash(k0, st_0, dir, name) == eval_hash(k1, st_1, dir, name)) == (
            k0.cs[st_0.level as int] == Seq::new(
                XOF_SIZE as nat,
                |i: int| digest_0[i] ^ digest_1[i],
            ))
        }),
{
    let digest_0 = named_digest(name, eval_state(k0, st_0, dir, name).seed);
    let digest_1 = named_digest(name, eval_state(k1, st_1, dir, name).seed);
    let c = k0.cs[st_0.level as int];
    let both = Seq::new(XOF_SIZE as nat, |i: int| digest_0[i] ^ digest_1[i]);
    assert(both =~= xor_view(digest_0, digest_1));
    assert(both =~= xor_view(digest_1, digest_0)) by {
        assert forall|i: int| 0 <= i < XOF_SIZE implies digest_0[i] ^ digest_1[i] == digest_1[i]
            ^ digest_0[i] by {
            let (x, y) = (digest_0[i], digest_1[i]);
            assert(x ^ y == y ^ x) by (bit_vector);
        }
    }
    lemma_xor_cancel(c, digest_0);
    lemma_xor_cancel(c, digest_1);
    lemma_xor_cancel(digest_0, digest_1);
    lemma_xor_cancel(digest_1, digest_0);
}

/// The proof corrections have no influence on seeds and control bits.
proof fn lemma_corrections_irrelevant<V>(
    k: KeyView<V>,
    cs: Seq<Seq<u8>>,
    proof_0: Seq<u8>,
    proof_1: Seq<u8>,
    path: Seq<bool>,
)
    ensures
        ({
            let other = KeyView { cs, ..k };
            &&& state_at(k, proof_0, path).level == state_at(other, proof_1, path).level
            &&& state_at(k, proof_0, path).seed == state_at(other, proof_1, path).seed
            &&& state_at(k, proof_0, path).bit == state_at(other, proof_1, path).bit
        }),
    decreases path.len(),
{
    if path.len() > 0 {
        lemma_corrections_irrelevant(k, cs, proof_0, proof_1, path.drop_last());
    }
}

/// A client who plants other proof corrections is seen at every level: at each node on the client's
/// path the two servers hash the same value if and only if the correction of that level is the
/// exclusive or of the two servers' digests there.
pub proof fn law_wrong_correction_shows<T: FromRng>(
    k0: KeyView<T::V>,
    k1: KeyView<T::V>,
    alpha: Seq<bool>,
    values: Seq<T::V>,
    cs: Seq<Seq<u8>>,
    start: Seq<u8>,
    path: Seq<bool>,
)
    requires
        honest_pair::<T>(k0, k1, alpha, values),
        0 < path.len(),
        on_path(alpha, path),
        cs.len() == alpha.len(),
        forall|l: int| 0 <= l < cs.len() ==> (#[trigger] cs[l]).len() == XOF_SIZE,
    ensures
        ({
            let sent_0 = KeyView { cs, ..k0 };
            let sent_1 = KeyView { cs, ..k1 };
            let up_0 = state_at(sent_0, start, path.drop_last());
            let up_1 = state_at(sent_1, start, path.drop_last());
            let digest_0 = named_digest(label(path), state_at(sent_0, start, path).seed);
            let digest_1 = named_digest(label(path), state_at(sent_1, start, path).seed);
            (eval_hash(sent_0, up_0, path.last(), label(path)) == eval_hash(
                sent_1,
                up_1,
                path.last(),
                label(path),
            )) == (cs[path.len() - 1] == Seq::new(
                XOF_SIZE as nat,
                |i: int| digest_0[i] ^ digest_1[i],
            ))
        }),
{
    let sent_0 = KeyView { cs, ..k0 };
    let sent_1 = KeyView { cs, ..k1 };
    let up = path.drop_last();
    lemma_state_proof_irrelevant(sent_0, start, start, up);
    lemma_state_proof_irrelevant(sent_1, start, start, up);
    lemma_corrections_irrelevant(k0, cs, zero_proof(), start, path);
    lemma_corrections_irrelevant(k1, cs, zero_proof(), start, path);
    law_control_bits::<T>(k0, k1, alpha, values, path);
    law_correction_decides(
        sent_0,
        sent_1,
        state_at(sent_0, start, up),
        state_at(sent_1, start, up),
        path.last(),
        label(path),
    );
}

/// The name of a node spells its path in the digits zero and one, a byte for each direction.
pub proof fn law_label(path: Seq<bool>)
    ensures
        label(path).len() == path.len(),
        forall|i: int|
            0 <= i < path.len() ==> #[trigger] label(path)[i] == if path[i] {
                0x31u8
            } else {
                0x30u8
            },
{
    let text = bitstring_view(path);
    assert(is_ascii_chars(text)) by {
        assert forall|i: int| 0 <= i < text.len() implies 0 <= #[trigger] text[i] as nat <= 127 by {
        }
    }
    is_ascii_chars_encode_utf8(text);
    assert forall|i: int| 0 <= i < path.len() implies #[trigger] label(path)[i] == if path[i] {
        0x31u8
    } else {
        0x30u8
    } by {
        assert(text[i] as u8 == label(path)[i]);
    }
}

/// One level down, the seed comes from the parent's seed alone, with the level's seed correction in
/// it where the parent's control bit is set, and the control bit likewise.
pub proof fn law_seed_step<V>(k: KeyView<V>, st: StateView, dir: bool, name: Seq<u8>)
    requires
        st.seed.len() == SEED_SIZE,
        k.cor_words[st.level as int].seed.len() == SEED_SIZE,
    ensures
        ({
            let next = eval_state(k, st, dir, name);
            let cor = k.cor_words[st.level as int];
            let raw = child_seed(st.seed, dir);
            let corrected = Seq::new(
                SEED_SIZE as nat,
                |i: int|
                    if st.bit {
                        raw[i] ^ cor.seed[i]
                    } else {
                        raw[i]
                    },
            );
            let flip = if dir {
                cor.bits.1
            } else {
                cor.bits.0
            };
            &&& next.seed == next_seed(corrected)
            &&& next.bit == (child_bit(st.seed, dir) != (st.bit && flip))
        }),
{
    let cor = k.cor_words[st.level as int];
    let raw = child_seed(st.seed, dir);
    let corrected = Seq::new(
        SEED_SIZE as nat,
        |i: int|
            if st.bit {
                raw[i] ^ cor.seed[i]
            } else {
                raw[i]
            },
    );
    assert(raw.len() == SEED_SIZE);
    assert(eval_seed(k, st, dir) =~= corrected);
}

/// The first party's share is what the node's seed draws, with the level's payload correction added
/// where the control bit is set. The second party's is the inverse of that.
pub proof fn law_word_step<T: FromRng>(k: KeyView<T::V>, st: StateView, dir: bool, aux: bool)
    requires
        st.seed.len() == SEED_SIZE,
        k.cor_words[st.level as int].seed.len() == SEED_SIZE,
    ensures
        ({
            let cor = k.cor_words[st.level as int];
            let raw = child_seed(st.seed, dir);
            let corrected = Seq::new(
                SEED_SIZE as nat,
                |i: int|
                    if st.bit {
                        raw[i] ^ cor.seed[i]
                    } else {
                        raw[i]
                    },
            );
            let drawn = if aux {
                T::drawn(payload_stream(corrected))
            } else {
                T::drawn_no_aux(payload_stream(corrected))
            };
            let control = eval_state(k, st, dir, Seq::empty()).bit;
            let word = eval_word::<T>(k, st, dir, aux);
            &&& !control && !k.key_idx ==> word == drawn
            &&& !control && k.key_idx ==> word == T::neg_view(drawn)
            &&& control && !k.key_idx ==> word == T::add_view(drawn, cor.word)
            &&& control && k.key_idx ==> word == T::neg_view(T::add_view(drawn, cor.word))
        }),
{
    let cor = k.cor_words[st.level as int];
    let raw = child_seed(st.seed, dir);
    let corrected = Seq::new(
        SEED_SIZE as nat,
        |i: int|
            if st.bit {
                raw[i] ^ cor.seed[i]
            } else {
                raw[i]
            },
    );
    assert(raw.len() == SEED_SIZE);
    assert(eval_seed(k, st, dir) =~= corrected);
}

/// The root carries the key's own seed and number, and every further direction goes one level down
/// under the name of the path so far. The payload share at a node is read on the way into it.
pub proof fn law_path_step<T: FromRng>(
    k: KeyView<T::V>,
    start: Seq<u8>,
    path: Seq<bool>,
    dir: bool,
)
    ensures
        state_at(k, start, Seq::empty()) == (StateView {
            level: 0,
            seed: k.root_seed,
            bit: k.key_idx,
            proof: start,
        }),
        state_at(k, start, path.push(dir)) == eval_state(
            k,
            state_at(k, start, path),
            dir,
            label(path.push(dir)),
        ),
        word_at::<T>(k, path.push(dir)) == eval_word::<T>(
            k,
            state_at(k, start, path),
            dir,
            true,
        ),
        state_at(k, start, path).level == path.len(),
{
    assert(path.push(dir).drop_last() =~= path);
    lemma_state_proof_irrelevant(k, start, zero_proof(), path);
}

/// The two keys of an honestly generated pair hold a correction for every level of the path and the
/// same ones, they are numbered zero and one, and each level's proof correction is the exclusive or
/// of the two parties' digests at the node on the path.
pub proof fn law_honest_keys<T: FromRng>(
    k0: KeyView<T::V>,
    k1: KeyView<T::V>,
    alpha: Seq<bool>,
    values: Seq<T::V>,
    l: int,
)
    requires
        honest_pair::<T>(k0, k1, alpha, values),
        0 <= l < alpha.len(),
    ensures
        k0.cor_words.len() == alpha.len(),
        k0.cs.len() == alpha.len(),
        k0.cor_words == k1.cor_words,
        k0.cs == k1.cs,
        !k0.key_idx && k1.key_idx,
        ({
            let path = alpha.take(l + 1);
            let digest_0 = named_digest(label(path), state_at(k0, zero_proof(), path).seed);
            let digest_1 = named_digest(label(path), state_at(k1, zero_proof(), path).seed);
            k0.cs[l] == Seq::new(XOF_SIZE as nat, |i: int| digest_0[i] ^ digest_1[i])
        }),
{
    let path = alpha.take(l + 1);
    assert(path =~= alpha.take(path.len() as int));
    lemma_on_path::<T>(k0, k1, alpha, values, zero_proof(), path);
    let digest_0 = named_digest(label(path), state_at(k0, zero_proof(), path).seed);
    let digest_1 = named_digest(label(path), state_at(k1, zero_proof(), path).seed);
    assert(k0.cor_words =~= k1.cor_words);
    assert(k0.cs =~= k1.cs);
    assert(k0.cs[l] =~= Seq::new(XOF_SIZE as nat, |i: int| digest_0[i] ^ digest_1[i]));
}

} // verus!
