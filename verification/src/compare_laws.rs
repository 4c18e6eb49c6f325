//! What the comparison circuit computes.
use vstd::arithmetic::div_mod::{
    lemma_fundamental_div_mod, lemma_fundamental_div_mod_converse, lemma_small_mod,
};
use vstd::arithmetic::power2::{lemma2_to64, lemma_pow2_strictly_increases, pow2};
use vstd::prelude::*;

use crate::bits::{bits_value, bits_view, lemma_bits_value_bound, lemma_bits_value_of_view};
use crate::bitvector::BitVector;
use crate::compare::{
    blocks, change_parity, comparison_gives, is_edabit, lt_circuit, lt_const_view, or_step,
    prefix_network, round_blocks, shorter, spread, threshold_view, xor_bits,
};
use crate::consts::DIM;
use crate::emb_cnt::{constant_embedding, EmbCnt, EmbView};
use crate::field::{field, MODULUS};
use crate::group::Group;

verus! {

/// The bit `p` places from the top.
spec fn top(a: Seq<bool>, p: int) -> bool {
    a[a.len() - 1 - p]
}

/// Whether a bit is set `p` places from the top or higher.
spec fn any_above(a: Seq<bool>, p: int) -> bool {
    exists|q: int| 0 <= q <= p && #[trigger] top(a, q)
}

/// Spreading the bit `y` sets exactly what it should.
proof fn lemma_spread(a: Seq<bool>, y: int, z: int)
    requires
        0 <= y < a.len(),
        z >= 1,
    ensures
        spread(a, y, z).len() == a.len(),
        forall|p: int| 0 <= p < a.len() && top(a, p) ==> #[trigger] top(spread(a, y, z), p),
        forall|p: int|
            y < p < a.len() && p < y + z && top(a, y) ==> #[trigger] top(spread(a, y, z), p),
        forall|p: int|
            0 <= p < a.len() && #[trigger] top(spread(a, y, z), p) ==> top(a, p) || (y < p && top(
                a,
                y,
            )),
    decreases z,
{
    if z > 1 {
        lemma_spread(a, y, z - 1);
        let b = spread(a, y, z - 1);
        let n = a.len() as int;
        if y + (z - 1) < n {
            let c = spread(a, y, z);
            assert(c == or_step(b, n - 1 - y, n - 1 - y - (z - 1)));
            assert(top(b, y) == top(a, y)) by {
                assert(top(b, y) ==> top(a, y));
            }
            assert forall|p: int| 0 <= p < n implies #[trigger] top(c, p) == if p == y + z - 1 {
                top(a, y) || top(b, p)
            } else {
                top(b, p)
            } by {
            }
        }
    }
}

/// There is nothing to spread below the lowest bit.
proof fn lemma_spread_below(a: Seq<bool>, y: int, z: int)
    requires
        y >= a.len(),
    ensures
        spread(a, y, z) == a,
    decreases z,
{
    if z > 1 {
        lemma_spread_below(a, y, z - 1);
    }
}

/// After the first `j` blocks of a round every bit is the or of bits above it, none was lost, and
/// the second half of each block has received the last bit of the first half.
proof fn lemma_blocks(a: Seq<bool>, half: int, j: int)
    requires
        half >= 1,
        0 <= j,
    ensures
        blocks(a, half, j).len() == a.len(),
        forall|p: int| 0 <= p < a.len() && top(a, p) ==> #[trigger] top(blocks(a, half, j), p),
        forall|t: int, p: int|
            #![trigger top(a, half + t * (2 * half) - 1), top(blocks(a, half, j), p)]
            0 <= t < j && half + t * (2 * half) - 1 < p <= half + t * (2 * half) - 1 + half && p
                < a.len() && top(a, half + t * (2 * half) - 1) ==> top(blocks(a, half, j), p),
        forall|p: int| 0 <= p < a.len() && #[trigger] top(blocks(a, half, j), p) ==> any_above(a, p),
    decreases j,
{
    if j == 0 {
        assert forall|p: int| 0 <= p < a.len() && #[trigger] top(
            blocks(a, half, 0),
            p,
        ) implies any_above(a, p) by {
            assert(top(a, p));
        }
    } else {
        let s = j - 1;
        let full = 2 * half;
        assert(s * full + full == j * full) by (nonlinear_arith)
            requires
                s == j - 1,
        ;
        assert(s * full >= 0) by (nonlinear_arith)
            requires
                s >= 0,
                full >= 0,
        ;
        lemma_blocks(a, half, s);
        let b = blocks(a, half, s);
        let y = half + s * full - 1;
        let c = blocks(a, half, j);
        assert(c == spread(b, y, full));
        if y < b.len() {
            lemma_spread(b, y, full);
        } else {
            lemma_spread_below(b, y, full);
        }
        assert forall|t: int, p: int|
            #![trigger top(a, half + t * (2 * half) - 1), top(c, p)]
            0 <= t < j && half + t * (2 * half) - 1 < p <= half + t * (2 * half) - 1 + half && p
                < a.len() && top(a, half + t * (2 * half) - 1) implies top(c, p) by {
            if t < s {
                assert(top(b, p));
            } else {
                assert(top(b, y));
            }
        }
        assert forall|p: int| 0 <= p < a.len() && #[trigger] top(c, p) implies any_above(a, p) by {
            if !top(b, p) {
                assert(top(b, y));
                assert(any_above(a, y));
                let q = choose|q: int| 0 <= q <= y && #[trigger] top(a, q);
                assert(0 <= q <= p && top(a, q));
            }
        }
    }
}

/// Whether `a` is `start` with every bit or-ed with the bits above it in its block of `width` bits,
/// and perhaps with more bits above it.
spec fn gathered(start: Seq<bool>, a: Seq<bool>, width: int) -> bool {
    &&& a.len() == start.len()
    &&& forall|p: int| 0 <= p < a.len() && #[trigger] top(a, p) ==> any_above(start, p)
    &&& forall|q: int, p: int|
        #![trigger top(start, q), top(a, p)]
        0 <= q <= p < a.len() && q / width == p / width && top(start, q) ==> top(a, p)
}

/// A round doubles the width over which bits are gathered.
proof fn lemma_round(start: Seq<bool>, a: Seq<bool>, half: int, count: int)
    requires
        half >= 1,
        count >= 0,
        a.len() <= count * (2 * half),
        gathered(start, a, half),
    ensures
        gathered(start, blocks(a, half, count), 2 * half),
{
    let b = blocks(a, half, count);
    let n = a.len() as int;
    let full = 2 * half;
    lemma_blocks(a, half, count);
    assert forall|p: int| 0 <= p < n && #[trigger] top(b, p) implies any_above(start, p) by {
        assert(any_above(a, p));
        let q = choose|q: int| 0 <= q <= p && #[trigger] top(a, q);
        assert(any_above(start, q));
        let w = choose|w: int| 0 <= w <= q && #[trigger] top(start, w);
        assert(0 <= w <= p && top(start, w));
    }
    assert forall|q: int, p: int|
        #![trigger top(start, q), top(b, p)]
        0 <= q <= p < n && q / full == p / full && top(start, q) implies top(b, p) by {
        let t = q / full;
        let rq = q % full;
        let rp = p % full;
        lemma_fundamental_div_mod(q, full);
        lemma_fundamental_div_mod(p, full);
        assert(q == full * t + rq && p == full * t + rp && 0 <= rq < full && 0 <= rp < full);
        assert(full * t == (2 * t) * half && t * full == full * t && (2 * t + 1) * half == (2 * t)
            * half + half) by (nonlinear_arith)
            requires
                full == 2 * half,
        ;
        if rp < half {
            lemma_fundamental_div_mod_converse(q, half, 2 * t, rq);
            lemma_fundamental_div_mod_converse(p, half, 2 * t, rp);
            assert(top(a, p));
        } else if rq >= half {
            lemma_fundamental_div_mod_converse(q, half, 2 * t + 1, rq - half);
            lemma_fundamental_div_mod_converse(p, half, 2 * t + 1, rp - half);
            assert(top(a, p));
        } else {
            let y = half + t * full - 1;
            lemma_fundamental_div_mod_converse(q, half, 2 * t, rq);
            lemma_fundamental_div_mod_converse(y, half, 2 * t, half - 1);
            assert(top(a, y));
            assert(0 <= t < count) by (nonlinear_arith)
                requires
                    0 <= q,
                    p < n,
                    n <= count * full,
                    p == full * t + rp,
                    q == full * t + rq,
                    0 <= rp < full,
                    0 <= rq < full,
            ;
            assert(top(a, half + t * (2 * half) - 1));
            assert(top(b, p));
        }
    }
}

/// The remaining rounds or every bit with all bits above it.
proof fn lemma_network(start: Seq<bool>, a: Seq<bool>, half: int)
    requires
        half >= 1,
        gathered(start, a, half),
    ensures
        prefix_network(a, a.len() as int, half).len() == a.len(),
        forall|p: int|
            0 <= p < a.len() ==> #[trigger] top(prefix_network(a, a.len() as int, half), p)
                == any_above(start, p),
    decreases
            if half < a.len() {
                a.len() - half
            } else {
                0
            },
{
    let n = a.len() as int;
    if half >= n {
        assert(prefix_network(a, n, half) == a);
        assert forall|p: int| 0 <= p < n implies #[trigger] top(a, p) == any_above(start, p) by {
            if any_above(start, p) {
                let q = choose|q: int| 0 <= q <= p && #[trigger] top(start, q);
                lemma_fundamental_div_mod_converse(q, half, 0, q);
                lemma_fundamental_div_mod_converse(p, half, 0, p);
                assert(top(a, p));
            }
        }
    } else {
        let full = 2 * half;
        let count = round_blocks(n, half);
        lemma_fundamental_div_mod(n + full - 1, full);
        assert(n <= count * full && count >= 0) by (nonlinear_arith)
            requires
                n + full - 1 < full * count + full,
                full >= 2,
                n >= 0,
        ;
        lemma_round(start, a, half, count);
        lemma_network(start, blocks(a, half, count), full);
    }
}

/// The parity of changes below the highest set bit is zero, and from there on it is the public bit
/// at that place.
proof fn lemma_change_parity(r: Seq<bool>, z: Seq<bool>, m: int, n: int)
    requires
        -1 <= m < z.len(),
        0 <= n <= z.len(),
        forall|i: int| 0 <= i < z.len() ==> #[trigger] z[i] == (i <= m),
    ensures
        change_parity(r, z, n) == (0 <= m < n && r[m]),
    decreases n,
{
    if n > 0 {
        lemma_change_parity(r, z, m, n - 1);
    }
}

/// Numbers that differ in the bit `m` and agree above it are ordered as that bit says.
proof fn lemma_order_by_highest(x: Seq<bool>, r: Seq<bool>, m: int)
    requires
        x.len() == r.len(),
        0 <= m < x.len(),
        x[m] != r[m],
        forall|i: int| m < i < x.len() ==> x[i] == r[i],
    ensures
        (bits_value(x) < bits_value(r)) == r[m],
    decreases x.len(),
{
    let x1 = x.drop_last();
    let r1 = r.drop_last();
    if m == x.len() - 1 {
        lemma_bits_value_bound(x1);
        lemma_bits_value_bound(r1);
    } else {
        assert(x.last() == r.last());
        lemma_order_by_highest(x1, r1, m);
    }
}

/// The circuit decides whether the number that `x` spells is smaller than the one that the low bits
/// of `r` spell.
pub proof fn law_circuit_compares(r: Seq<bool>, x: Seq<bool>)
    requires
        x.len() <= r.len(),
    ensures
        lt_circuit(r, x) == (bits_value(x) < bits_value(r.take(x.len() as int))),
{
    let n = x.len() as int;
    let y = xor_bits(x, r);
    let low = r.take(n);
    assert(gathered(y, y, 1)) by {
        assert forall|p: int| 0 <= p < n && #[trigger] top(y, p) implies any_above(y, p) by {
            assert(0 <= p <= p && top(y, p));
        }
    }
    lemma_network(y, y, 1);
    let z = prefix_network(y, n, 1);
    if exists|i: int| 0 <= i < n && #[trigger] y[i] {
        let m = highest_set(y, n);
        lemma_highest_set(y, n);
        assert forall|i: int| 0 <= i < n implies #[trigger] z[i] == (i <= m) by {
            let p = n - 1 - i;
            assert(top(z, p) == z[i]);
            if i <= m {
                assert(top(y, n - 1 - m));
                assert(any_above(y, p));
            } else if any_above(y, p) {
                let q = choose|q: int| 0 <= q <= p && #[trigger] top(y, q);
                assert(y[n - 1 - q]);
            }
        }
        lemma_change_parity(r, z, m, n);
        assert forall|i: int| m < i < n implies x[i] == low[i] by {
            assert(!y[i]);
        }
        lemma_order_by_highest(x, low, m);
    } else {
        assert(x =~= low) by {
            assert forall|i: int| 0 <= i < n implies x[i] == low[i] by {
                assert(!y[i]);
            }
        }
        assert forall|i: int| 0 <= i < n implies #[trigger] z[i] == (i <= -1) by {
            let p = n - 1 - i;
            assert(top(z, p) == z[i]);
            if any_above(y, p) {
                let q = choose|q: int| 0 <= q <= p && #[trigger] top(y, q);
                assert(y[n - 1 - q]);
            }
        }
        lemma_change_parity(r, z, -1, n);
    }
}

/// The circuit decides whether the number that `x` spells is smaller than `number` reduced to as
/// many bits.
pub proof fn law_circuit_compares_number(number: nat, x: Seq<bool>)
    requires
        x.len() <= 32,
    ensures
        lt_circuit(bits_view(number, 32), x) == (bits_value(x) < number % pow2(x.len())),
{
    law_circuit_compares(bits_view(number, 32), x);
    assert(bits_view(number, 32).take(x.len() as int) =~= bits_view(number, x.len()));
    lemma_bits_value_of_view(number, x.len());
}

/// The masked comparison decides whether a positive number up to 2^16 exceeds the threshold by more
/// than one, whatever the mask.
pub proof fn law_masked_comparison(const_r: int, x: int, r: int)
    requires
        0 <= const_r <= 65535,
        0 <= r < 64,
        0 < x <= 65536,
    ensures
        lt_const_view(const_r, x, r) == (const_r + 1 < x),
{
    assert(field(x + r) == x + r);
    assert(field(x + r + (65535 - const_r)) == x + r + (65535 - const_r));
}

/// The highest place below `n` at which `y` is set, or -1.
spec fn highest_set(y: Seq<bool>, n: int) -> int
    decreases n,
{
    if n <= 0 {
        -1
    } else if y[n - 1] {
        n - 1
    } else {
        highest_set(y, n - 1)
    }
}

proof fn lemma_highest_set(y: Seq<bool>, n: int)
    requires
        0 <= n <= y.len(),
    ensures
        -1 <= highest_set(y, n) < n,
        highest_set(y, n) >= 0 ==> y[highest_set(y, n)],
        forall|i: int| highest_set(y, n) < i < n ==> !#[trigger] y[i],
    decreases n,
{
    if n > 0 {
        lemma_highest_set(y, n - 1);
    }
}

/// A number of more bits is compared by its remainder modulo 2^16, whatever the mask, as long as
/// adding the mask does not wrap around the field. A remainder of zero stands for 2^16.
pub proof fn law_masked_remainder(const_r: int, x: int, r: int)
    requires
        0 <= const_r <= 65535,
        0 <= r < 64,
        0 <= x,
        x + 65598 < MODULUS,
    ensures
        lt_const_view(const_r, x, r) == (const_r + 1 < if x % 65536 == 0 {
            65536int
        } else {
            x % 65536
        }),
{
    let t = x % 65536;
    let gap = 65535 - const_r;
    assert(field(x + r) == x + r);
    assert(field(x + r + gap) == x + r + gap);
    assert((x + r) % 65536 == (t + r) % 65536);
    assert((x + r + gap) % 65536 == (t + r + gap) % 65536);
}

/// What the comparison gives is decided, whichever mask was drawn, as long as adding it does not wrap
/// around the field.
pub proof fn law_comparison_decided(const_r: int, x: int, c: bool)
    requires
        0 <= const_r <= 65535,
        0 <= x,
        x + 65598 < MODULUS,
    ensures
        comparison_gives(const_r, x, c) == (c == (const_r + 1 < if x % 65536 == 0 {
            65536int
        } else {
            x % 65536
        })),
{
    let expected = const_r + 1 < if x % 65536 == 0 {
        65536int
    } else {
        x % 65536
    };
    law_masked_remainder(const_r, x, 0);
    if comparison_gives(const_r, x, c) {
        let r = choose|r: int| 0 <= r < 64 && c == #[trigger] lt_const_view(const_r, x, r);
        law_masked_remainder(const_r, x, r);
    }
}

/// Two bit strings are exclusive-ored bit by bit.
pub proof fn law_xor_bits(a: Seq<bool>, b: Seq<bool>, i: int)
    requires
        0 <= i < a.len(),
    ensures
        xor_bits(a, b).len() == a.len(),
        xor_bits(a, b)[i] == (a[i] != b[i]),
{
}

/// The shorter of two lengths is one of them and no larger than the other.
pub proof fn law_shorter(a: nat, b: nat)
    ensures
        shorter(a, b) <= a,
        shorter(a, b) <= b,
        shorter(a, b) == a || shorter(a, b) == b,
{
}

/// A threshold is seen by its lowest 32 bits, which for one below 2^32 is the threshold itself.
pub proof fn law_threshold(threshold: EmbView)
    requires
        0 <= threshold.count,
    ensures
        threshold_view(threshold) == threshold.count % 0x1_0000_0000,
        threshold.count < 0x1_0000_0000 ==> threshold_view(threshold) == threshold.count,
{
}

/// The two forms in which a random number is shared agree: the bits spell the number that the counts
/// add up to, which is below 64, and the embeddings cancel.
pub proof fn law_edabit(
    first: (EmbCnt, BitVector),
    second: (EmbCnt, BitVector),
    num_bits: nat,
    i: int,
)
    requires
        is_edabit(first, second, num_bits),
        num_bits >= 6,
        0 <= i < DIM,
        EmbCnt::valid(first.0@),
        EmbCnt::valid(second.0@),
    ensures
        ({
            let r = field(first.0.count@ + second.0.count@);
            let joined = Seq::new(num_bits, |b: int| first.1@[b] != second.1@[b]);
            &&& 0 <= r < 64
            &&& first.1@.len() == num_bits
            &&& second.1@.len() == num_bits
            &&& bits_value(joined) == r
            &&& (first.0.embedding@[i] + second.0.embedding@[i]) % 0x1_0000_0000 == 0
        }),
{
    let r = field(first.0.count@ + second.0.count@);
    let joined = Seq::new(num_bits, |b: int| first.1@[b] != second.1@[b]);
    assert(joined =~= xor_bits(first.1@, second.1@));
    lemma_bits_value_of_view(r as nat, num_bits);
    lemma2_to64();
    if num_bits > 6 {
        lemma_pow2_strictly_increases(6, num_bits);
    }
    lemma_small_mod(r as nat, pow2(num_bits));
    let sum = EmbCnt::add_view(first.0@, second.0@);
    assert(sum.embedding[i] == constant_embedding(0)[i]);
}

} // verus!
