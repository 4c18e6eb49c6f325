//! What the two parties' sketches promise together.
use vstd::arithmetic::div_mod::{
    lemma_add_mod_noop, lemma_mod_twice, lemma_mul_mod_noop, lemma_mul_mod_noop_left,
    lemma_mul_mod_noop_right, lemma_sub_mod_noop,
};
use vstd::arithmetic::mul::lemma_mul_is_distributive_add_other_way;
use vstd::prelude::*;

use crate::dpf::word_at;
use crate::dpf_laws::{law_reconstruction, lemma_word_valid, on_path};
use crate::emb_cnt::{EmbCnt, EmbView};
use crate::field::{
    fe_drawn, fe_rest, field, field_mul, lemma_draw_in_field, period, FE, MODULUS,
};
use crate::group::Group;
use crate::prg::StreamView;
use crate::primes::law_no_zero_divisors;
use crate::sketch::{
    after_draws, authenticated, draws, firsts, honest_sketch_pair, inner_product, is_triple,
    joint_mac_key, lemma_after_draws_adds, seconds, sketch_view, squares, Payload, SketchKeyView,
};

verus! {

/// The entrywise sum of two vectors over the field.
pub open spec fn vector_sum(xs: Seq<int>, ys: Seq<int>) -> Seq<int> {
    Seq::new(xs.len(), |i: int| field(xs[i] + ys[i]))
}

/// A vector multiplied by a field element.
pub open spec fn vector_scaled(k: int, xs: Seq<int>) -> Seq<int> {
    Seq::new(xs.len(), |i: int| field_mul(xs[i], k))
}

/// The vector of `n` entries that is one at `j` and zero elsewhere; all zero where `j` is outside.
pub open spec fn unit_vector(n: nat, j: int) -> Seq<int> {
    Seq::new(
        n,
        |i: int|
            if i == j {
                1
            } else {
                0
            },
    )
}

/// Reducing before adding changes nothing.
proof fn lemma_field_add(a: int, b: int)
    ensures
        field(field(a) + field(b)) == field(a + b),
        field(field(a) + b) == field(a + b),
        field(a + field(b)) == field(a + b),
{
    let p = MODULUS as int;
    lemma_add_mod_noop(a, b, p);
    lemma_add_mod_noop(field(a), b, p);
    lemma_mod_twice(a, p);
    lemma_add_mod_noop(a, field(b), p);
    lemma_mod_twice(b, p);
}

/// Reducing before multiplying changes nothing.
proof fn lemma_field_mul(a: int, b: int)
    ensures
        field(field(a) * b) == field(a * b),
        field(a * field(b)) == field(a * b),
{
    lemma_mul_mod_noop_left(a, b, MODULUS as int);
    lemma_mul_mod_noop_right(a, b, MODULUS as int);
}

/// The inner product is linear in its first argument.
pub proof fn law_inner_product_sum(xs: Seq<int>, ys: Seq<int>, ws: Seq<int>)
    requires
        xs.len() == ys.len(),
        xs.len() == ws.len(),
    ensures
        inner_product(vector_sum(xs, ys), ws) == field(
            inner_product(xs, ws) + inner_product(ys, ws),
        ),
    decreases xs.len(),
{
    if xs.len() > 0 {
        let (xs1, ys1, ws1) = (xs.drop_last(), ys.drop_last(), ws.drop_last());
        law_inner_product_sum(xs1, ys1, ws1);
        assert(vector_sum(xs, ys).drop_last() =~= vector_sum(xs1, ys1));
        let (x, y, w) = (xs.last(), ys.last(), ws.last());
        let (a, b) = (inner_product(xs1, ws1), inner_product(ys1, ws1));
        lemma_field_mul(x + y, w);
        lemma_mul_is_distributive_add_other_way(w, x, y);
        lemma_field_add(x * w, y * w);
        lemma_field_add(a + b, field_mul(field(x + y), w));
        lemma_field_add(a + field(x * w), b + field(y * w));
        lemma_field_add(a + b, x * w + y * w);
        lemma_field_add(a + b + field(x * w), y * w);
        lemma_field_add(a + b, x * w);
        lemma_field_add(a + b + x * w, y * w);
        lemma_field_add(a + b + y * w, x * w);
        lemma_field_add(a + b + field(y * w), x * w);
    }
}

/// A factor of a vector comes out of the inner product.
pub proof fn law_inner_product_scaled(k: int, xs: Seq<int>, ws: Seq<int>)
    requires
        xs.len() == ws.len(),
    ensures
        inner_product(vector_scaled(k, xs), ws) == field_mul(inner_product(xs, ws), k),
    decreases xs.len(),
{
    if xs.len() > 0 {
        let (xs1, ws1) = (xs.drop_last(), ws.drop_last());
        law_inner_product_scaled(k, xs1, ws1);
        assert(vector_scaled(k, xs).drop_last() =~= vector_scaled(k, xs1));
        let (x, w) = (xs.last(), ws.last());
        let a = inner_product(xs1, ws1);
        lemma_field_mul(x * k, w);
        assert((x * k) * w == (x * w) * k) by (nonlinear_arith);
        lemma_field_mul(x * w, k);
        lemma_field_add(a * k, (x * w) * k);
        lemma_field_add(a * k, field(x * w) * k);
        lemma_mul_is_distributive_add_other_way(k, a, field(x * w));
        lemma_field_mul(a + field(x * w), k);
    } else {
        assert(0 * k == 0);
    }
}

/// The inner product with a unit vector is the weight at its one, and zero where it has none.
pub proof fn law_inner_product_unit(n: nat, j: int, ws: Seq<int>)
    requires
        ws.len() == n,
        forall|i: int| 0 <= i < n ==> 0 <= #[trigger] ws[i] < MODULUS,
    ensures
        inner_product(unit_vector(n, j), ws) == if 0 <= j < n {
            ws[j]
        } else {
            0
        },
    decreases n,
{
    if n > 0 {
        let m = (n - 1) as nat;
        law_inner_product_unit(m, j, ws.drop_last());
        assert(unit_vector(n, j).drop_last() =~= unit_vector(m, j));
        let w = ws[n - 1];
        assert(1 * w == w);
        assert(0 * w == 0);
    }
}

/// The sketches of two shares of a vector, weighed alike, add up to the sketch of the vector.
pub proof fn law_sketch_linear(
    xs_0: Seq<int>,
    kxs_0: Seq<int>,
    xs_1: Seq<int>,
    kxs_1: Seq<int>,
    s: StreamView,
)
    requires
        xs_0.len() == kxs_0.len(),
        xs_0.len() == xs_1.len(),
        xs_0.len() == kxs_1.len(),
    ensures
        ({
            let sketch_0 = sketch_view(xs_0, kxs_0, s);
            let sketch_1 = sketch_view(xs_1, kxs_1, s);
            let joint = sketch_view(vector_sum(xs_0, xs_1), vector_sum(kxs_0, kxs_1), s);
            &&& joint.r_x == field(sketch_0.r_x + sketch_1.r_x)
            &&& joint.r2_x == field(sketch_0.r2_x + sketch_1.r2_x)
            &&& joint.r_kx == field(sketch_0.r_kx + sketch_1.r_kx)
            &&& sketch_0.rand1 == sketch_1.rand1
            &&& sketch_0.rand2 == sketch_1.rand2
            &&& sketch_0.rand3 == sketch_1.rand3
        }),
{
    let ws = draws(after_draws(s, 3), xs_0.len());
    law_inner_product_sum(xs_0, xs_1, ws);
    law_inner_product_sum(xs_0, xs_1, squares(ws));
    law_inner_product_sum(kxs_0, kxs_1, ws);
}

/// A vector with at most a single one, authenticated under `mac_key`, passes the check: the square
/// of its sketch is its sketch with squared weights, and the sketch of the codes is the sketch of
/// the values times the key.
pub proof fn law_sketch_accepts(n: nat, j: int, mac_key: int, s: StreamView)
    ensures
        ({
            let xs = unit_vector(n, j);
            let sketch = sketch_view(xs, vector_scaled(mac_key, xs), s);
            &&& sketch.r2_x == field_mul(sketch.r_x, sketch.r_x)
            &&& sketch.r_kx == field_mul(sketch.r_x, mac_key)
        }),
{
    let xs = unit_vector(n, j);
    let ws = draws(after_draws(s, 3), n);
    assert forall|i: int| 0 <= i < n implies 0 <= #[trigger] ws[i] < MODULUS by {
        lemma_draw_in_field(
            after_draws(after_draws(s, 3), i as nat),
            period(),
        );
    }
    law_inner_product_unit(n, j, ws);
    law_inner_product_unit(n, j, squares(ws));
    law_inner_product_scaled(mac_key, xs, ws);
    let sketch = sketch_view(xs, vector_scaled(mac_key, xs), s);
    assert(sketch.r_x == inner_product(xs, ws));
    assert(sketch.r2_x == inner_product(xs, squares(ws)));
    assert(sketch.r_kx == inner_product(vector_scaled(mac_key, xs), ws));
}

/// The shares of an honestly generated pair add up to the contributed value and its authentication
/// code under the joint key where the path leads through the node, and to zero everywhere else.
pub proof fn law_contribution(
    k0: SketchKeyView,
    k1: SketchKeyView,
    alpha: Seq<bool>,
    values: Seq<EmbView>,
    path: Seq<bool>,
)
    requires
        honest_sketch_pair(k0, k1, alpha, values),
        values.len() == alpha.len(),
        forall|i: int| 0 <= i < values.len() ==> EmbCnt::valid(#[trigger] values[i]),
        0 < path.len() <= alpha.len(),
    ensures
        ({
            let w0 = word_at::<Payload>(k0.key, path);
            let w1 = word_at::<Payload>(k1.key, path);
            let value = if on_path(alpha, path) {
                values[path.len() - 1]
            } else {
                EmbCnt::zero_view()
            };
            &&& EmbCnt::valid(w0.0)
            &&& EmbCnt::valid(w1.0)
            &&& EmbCnt::add_view(w0.0, w1.0) == value
            &&& FE::add_view(w0.1, w1.1) == field_mul(value.count, joint_mac_key(k0, k1))
        }),
{
    let mac_key = joint_mac_key(k0, k1);
    let payloads = authenticated(values, mac_key);
    assert forall|i: int| 0 <= i < payloads.len() implies Payload::valid(#[trigger] payloads[i]) by {
        assert(EmbCnt::valid(values[i]));
    }
    law_reconstruction::<Payload>(k0.key, k1.key, alpha, payloads, path);
    lemma_word_valid::<Payload>(k0.key, k1.key, alpha, payloads, path);
    assert(0 * mac_key == 0);
}

/// The inner product of a vector with a single entry is that entry times its weight.
proof fn lemma_single_entry(xs: Seq<int>, ws: Seq<int>, j: int)
    requires
        xs.len() == ws.len(),
        0 <= j < xs.len(),
        forall|i: int| 0 <= i < xs.len() && i != j ==> #[trigger] xs[i] == 0,
    ensures
        inner_product(xs, ws) == field(xs[j] * ws[j]),
    decreases xs.len(),
{
    let n = xs.len() - 1;
    let (xs1, ws1) = (xs.drop_last(), ws.drop_last());
    if j == n {
        lemma_no_entry(xs1, ws1);
        lemma_field_add(0, xs[j] * ws[j]);
    } else {
        lemma_single_entry(xs1, ws1, j);
        assert(xs[n] == 0);
        assert(0 * ws[n] == 0);
        lemma_mod_twice(xs[j] * ws[j], MODULUS as int);
    }
}

/// The inner product of a zero vector is zero.
proof fn lemma_no_entry(xs: Seq<int>, ws: Seq<int>)
    requires
        xs.len() == ws.len(),
        forall|i: int| 0 <= i < xs.len() ==> #[trigger] xs[i] == 0,
    ensures
        inner_product(xs, ws) == 0,
    decreases xs.len(),
{
    if xs.len() > 0 {
        lemma_no_entry(xs.drop_last(), ws.drop_last());
        assert(xs[xs.len() - 1] == 0);
        assert(0 * ws[xs.len() - 1] == 0);
    }
}

/// The elements that a stream offers come one after the other, each from where the one before it
/// left off.
pub proof fn law_draws_follow(s: StreamView, n: nat)
    ensures
        after_draws(s, 0) == s,
        after_draws(s, n + 1) == fe_rest(after_draws(s, n)),
{
}

/// Every entry is weighed by an element of the stream of its own: of the elements that the stream
/// offers, the first three are set aside and the one after `j` more weighs the entry `j`. A vector
/// with the single entry `c` there has the sketch `c` times the weight and `c` times its square, and
/// the codes are weighed alike.
pub proof fn law_entry_weight(xs: Seq<int>, kxs: Seq<int>, j: int, s: StreamView)
    requires
        xs.len() == kxs.len(),
        0 <= j < xs.len(),
        forall|i: int| 0 <= i < xs.len() && i != j ==> #[trigger] xs[i] == 0,
        forall|i: int| 0 <= i < kxs.len() && i != j ==> #[trigger] kxs[i] == 0,
    ensures
        ({
            let w = fe_drawn(after_draws(s, (3 + j) as nat));
            let sketch = sketch_view(xs, kxs, s);
            &&& sketch.r_x == field(xs[j] * w)
            &&& sketch.r2_x == field(xs[j] * (w * w))
            &&& sketch.r_kx == field(kxs[j] * w)
            &&& xs[j] == 1 ==> sketch.r_x == w
            &&& xs[j] == 1 ==> sketch.r2_x == field_mul(w, w)
        }),
{
    let n = xs.len();
    let ws = draws(after_draws(s, 3), n);
    let w = fe_drawn(after_draws(s, (3 + j) as nat));
    lemma_after_draws_adds(s, 3, j as nat);
    assert(ws[j] == w);
    lemma_single_entry(xs, ws, j);
    lemma_single_entry(xs, squares(ws), j);
    lemma_single_entry(kxs, ws, j);
    assert(squares(ws)[j] == field_mul(w, w));
    lemma_mul_mod_noop_right(xs[j], w * w, MODULUS as int);
    lemma_draw_in_field(after_draws(s, (3 + j) as nat), period());
    assert(1 * w == w);
    assert(1 * (w * w) == w * w);
}

/// How far the check of a single entry is from holding: the square of the sketch and the sketch with
/// squared weights differ by `c (c - 1)` times the square of the weight. For an entry of zero or one
/// that is nothing.
pub proof fn law_single_entry_check(xs: Seq<int>, kxs: Seq<int>, j: int, s: StreamView)
    requires
        xs.len() == kxs.len(),
        0 <= j < xs.len(),
        forall|i: int| 0 <= i < xs.len() && i != j ==> #[trigger] xs[i] == 0,
        forall|i: int| 0 <= i < kxs.len() && i != j ==> #[trigger] kxs[i] == 0,
    ensures
        ({
            let w = fe_drawn(after_draws(s, (3 + j) as nat));
            let c = xs[j];
            let sketch = sketch_view(xs, kxs, s);
            field(field_mul(sketch.r_x, sketch.r_x) - sketch.r2_x) == field(
                (c * (c - 1)) * (w * w),
            )
        }),
{
    law_entry_weight(xs, kxs, j, s);
    let w = fe_drawn(after_draws(s, (3 + j) as nat));
    let c = xs[j];
    let m = MODULUS as int;
    let (a, b) = ((c * w) * (c * w), c * (w * w));
    lemma_mul_mod_noop(c * w, c * w, m);
    lemma_sub_mod_noop(a, b, m);
    assert(a - b == (c * (c - 1)) * (w * w)) by (nonlinear_arith)
        requires
            a == (c * w) * (c * w),
            b == c * (w * w),
    ;
}

/// A vector with a single entry passes the check only if the entry is zero or one, or if the element
/// of the stream that weighs it is zero: whoever counts otherwise is found out.
pub proof fn law_sketch_rejects(xs: Seq<int>, kxs: Seq<int>, j: int, s: StreamView)
    requires
        xs.len() == kxs.len(),
        0 <= j < xs.len(),
        0 <= xs[j] < MODULUS,
        forall|i: int| 0 <= i < xs.len() && i != j ==> #[trigger] xs[i] == 0,
        forall|i: int| 0 <= i < kxs.len() && i != j ==> #[trigger] kxs[i] == 0,
        sketch_view(xs, kxs, s).r2_x == field_mul(
            sketch_view(xs, kxs, s).r_x,
            sketch_view(xs, kxs, s).r_x,
        ),
    ensures
        xs[j] == 0 || xs[j] == 1 || fe_drawn(after_draws(s, (3 + j) as nat)) == 0,
{
    let w = fe_drawn(after_draws(s, (3 + j) as nat));
    let c = xs[j];
    law_single_entry_check(xs, kxs, j, s);
    lemma_draw_in_field(after_draws(s, (3 + j) as nat), period());
    law_no_zero_divisors(c * (c - 1), w * w);
    if field(w * w) == 0 {
        law_no_zero_divisors(w, w);
    } else {
        law_no_zero_divisors(c, c - 1);
    }
}

/// A code passes the check only if it is the entry times the key, or if the element of the stream
/// that weighs it is zero.
pub proof fn law_wrong_code_rejected(
    xs: Seq<int>,
    kxs: Seq<int>,
    j: int,
    mac_key: int,
    s: StreamView,
)
    requires
        xs.len() == kxs.len(),
        0 <= j < xs.len(),
        0 <= kxs[j] < MODULUS,
        forall|i: int| 0 <= i < xs.len() && i != j ==> #[trigger] xs[i] == 0,
        forall|i: int| 0 <= i < kxs.len() && i != j ==> #[trigger] kxs[i] == 0,
        sketch_view(xs, kxs, s).r_kx == field_mul(sketch_view(xs, kxs, s).r_x, mac_key),
    ensures
        kxs[j] == field(xs[j] * mac_key) || fe_drawn(after_draws(s, (3 + j) as nat)) == 0,
{
    let w = fe_drawn(after_draws(s, (3 + j) as nat));
    let (c, k) = (xs[j], kxs[j]);
    let p = MODULUS as int;
    law_entry_weight(xs, kxs, j, s);
    lemma_draw_in_field(after_draws(s, (3 + j) as nat), period());
    lemma_mul_mod_noop_left(c * w, mac_key, p);
    assert((c * w) * mac_key == (c * mac_key) * w) by (nonlinear_arith);
    lemma_sub_mod_noop(k * w, (c * mac_key) * w, p);
    assert(k * w - (c * mac_key) * w == (k - c * mac_key) * w) by (nonlinear_arith);
    law_no_zero_divisors(k - c * mac_key, w);
    if field(k - c * mac_key) == 0 {
        lemma_add_mod_noop(k - c * mac_key, c * mac_key, p);
        lemma_mod_twice(c * mac_key, p);
    }
}

/// The randomness that is set aside are the first three elements that the stream offers.
pub proof fn law_set_aside(xs: Seq<int>, kxs: Seq<int>, s: StreamView)
    ensures
        sketch_view(xs, kxs, s).rand1 == fe_drawn(s),
        sketch_view(xs, kxs, s).rand2 == fe_drawn(fe_rest(s)),
        sketch_view(xs, kxs, s).rand3 == fe_drawn(fe_rest(fe_rest(s))),
{
    reveal_with_fuel(after_draws, 3);
}

/// The two vectors that a list of pairs holds.
pub proof fn law_pairs(v: Seq<(FE, FE)>)
    ensures
        firsts(v).len() == v.len(),
        seconds(v).len() == v.len(),
        forall|i: int| 0 <= i < v.len() ==> #[trigger] firsts(v)[i] == v[i].0@,
        forall|i: int| 0 <= i < v.len() ==> #[trigger] seconds(v)[i] == v[i].1@,
{
}

/// An honestly generated pair of keys holds three shared products for every level, each of them the
/// product of its two factors, and the square of the authentication key.
pub proof fn law_honest_triples(
    k0: SketchKeyView,
    k1: SketchKeyView,
    alpha: Seq<bool>,
    values: Seq<EmbView>,
    i: int,
)
    requires
        honest_sketch_pair(k0, k1, alpha, values),
        0 <= i < 3 * alpha.len(),
    ensures
        k0.triples.len() == 3 * alpha.len(),
        k1.triples.len() == 3 * alpha.len(),
        field(k0.triples[i].c@ + k1.triples[i].c@) == field(
            field(k0.triples[i].a@ + k1.triples[i].a@) * field(
                k0.triples[i].b@ + k1.triples[i].b@,
            ),
        ),
        field(k0.mac_key2 + k1.mac_key2) == field(
            field(k0.mac_key + k1.mac_key) * field(k0.mac_key + k1.mac_key),
        ),
{
    assert(is_triple(k0.triples[i], k1.triples[i]));
}

} // verus!
