//! The two-party comparison of a shared count with a public threshold.
use vstd::arithmetic::div_mod::lemma_add_mod_noop_right;
use vstd::arithmetic::power2::{lemma2_to64, pow2};
use vstd::prelude::*;

use crate::bits::{bits_value, bits_view, lemma_bits_value_of_view};
use crate::bitvector::{u32_bits, BitVector};
use crate::collect::GlimpseKeyCollection;
use crate::compare_laws::{law_circuit_compares_number, law_masked_comparison};
use crate::emb_cnt::{constant_embedding, EmbCnt, EmbView};
use crate::field::{field, MODULUS};
use crate::group::{Group, Share};
use crate::random::{random_below, random_bit, random_bool};

verus! {

/// The correlated randomness of one oblivious transfer: two pads, a choice, and the chosen pad.
#[derive(Debug)]
pub struct Dealer {
    k: Vec<u8>,
    c: u8,
    kc: u8,
}

impl Dealer {
    /// The chosen pad is one of the two.
    #[verifier::type_invariant]
    pub closed spec fn wf(self) -> bool {
        self.k@.len() == 2 && self.c < 2 && self.kc == self.k@[self.c as int]
    }

    /// The two pads.
    pub closed spec fn pads(self) -> (u8, u8) {
        (self.k@[0], self.k@[1])
    }

    /// Which pad the receiver holds.
    pub closed spec fn choice(self) -> u8 {
        self.c
    }

    /// The randomness made of the given pads and choice.
    pub fn from_parts(k0: u8, k1: u8, c: u8) -> (r: Dealer)
        requires
            c < 2,
        ensures
            r.pads() == (k0, k1),
            r.choice() == c,
    {
        Dealer {
            k: vec![k0, k1],
            c,
            kc: if c == 0 {
                k0
            } else {
                k1
            },
        }
    }

    /// Fresh randomness: bits for pads and a bit for the choice.
    pub fn new() -> (r: Dealer)
        ensures
            r.pads().0 < 2,
            r.pads().1 < 2,
            r.choice() < 2,
    {
        Dealer::from_parts(random_bit(), random_bit(), random_bit())
    }
}

impl Default for Dealer {
    fn default() -> (r: Self)
        ensures
            r.pads().0 < 2,
            r.pads().1 < 2,
            r.choice() < 2,
    {
        Self::new()
    }
}

/// Exclusive-oring with a byte twice changes nothing.
proof fn lemma_pad_cancels(m: u8, k: u8)
    ensures
        (m ^ k) ^ k == m,
{
    assert((m ^ k) ^ k == m) by (bit_vector);
}

/// The entrywise exclusive or of two bit strings of the same length.
pub open spec fn xor_bits(a: Seq<bool>, b: Seq<bool>) -> Seq<bool> {
    Seq::new(a.len(), |i: int| a[i] != b[i])
}

/// `a` with the bit at `pivot` or-ed into the one at `target`.
pub open spec fn or_step(a: Seq<bool>, pivot: int, target: int) -> Seq<bool> {
    a.update(target, a[pivot] || a[target])
}

/// `a` with the bit `y` from the top or-ed into each of the `z - 1` bits below it, as far as there
/// are any.
pub open spec fn spread(a: Seq<bool>, y: int, z: int) -> Seq<bool>
    decreases z,
{
    if z <= 1 {
        a
    } else {
        let b = spread(a, y, z - 1);
        if y + (z - 1) < a.len() {
            or_step(b, a.len() - 1 - y, a.len() - 1 - y - (z - 1))
        } else {
            b
        }
    }
}

/// `a` after the first `j` blocks of `2 * half` bits, counted from the top, had the last bit of
/// their first half spread.
pub open spec fn blocks(a: Seq<bool>, half: int, j: int) -> Seq<bool>
    decreases j,
{
    if j <= 0 {
        a
    } else {
        spread(blocks(a, half, j - 1), half + (j - 1) * (2 * half) - 1, 2 * half)
    }
}

/// The number of blocks of `2 * half` bits that `n` bits take up; the last may be shorter.
pub open spec fn round_blocks(n: int, half: int) -> int {
    (n + 2 * half - 1) / (2 * half)
}

/// `a`, which has `n` bits, after the rounds from `half` on, each of which doubles the width over
/// which bits are or-ed.
pub open spec fn prefix_network(a: Seq<bool>, n: int, half: int) -> Seq<bool>
    decreases
            if half < n {
                n - half
            } else {
                0
            },
{
    if half <= 0 || half >= n {
        a
    } else {
        prefix_network(blocks(a, half, round_blocks(n, half)), n, 2 * half)
    }
}

/// The bit at `i`, and no bit beyond the end.
pub open spec fn bit_or_none(a: Seq<bool>, i: int) -> bool {
    i < a.len() && a[i]
}

/// The parity of the number of places where `r` is set and `z` changes from the place above.
pub open spec fn change_parity(r: Seq<bool>, z: Seq<bool>, n: int) -> bool
    decreases n,
{
    if n <= 0 {
        false
    } else {
        change_parity(r, z, n - 1) != (r[n - 1] && z[n - 1] != bit_or_none(z, n))
    }
}

/// What the comparison circuit computes of the bits `x` and the public bits `r`.
pub open spec fn lt_circuit(r: Seq<bool>, x: Seq<bool>) -> bool {
    let n = x.len() as int;
    change_parity(r, prefix_network(xor_bits(x, r), n, 1), n)
}

/// The length of the shorter of two sequences.
pub open spec fn shorter(a: nat, b: nat) -> nat {
    if a < b {
        a
    } else {
        b
    }
}

/// Whether two parties' values are the shares of a random number below 64: as a count with an empty
/// embedding, and as `num_bits` bits.
pub open spec fn is_edabit(
    first: (EmbCnt, BitVector),
    second: (EmbCnt, BitVector),
    num_bits: nat,
) -> bool {
    let r = field(first.0.count@ + second.0.count@);
    &&& r < 64
    &&& first.1@.len() == num_bits
    &&& second.1@.len() == num_bits
    &&& xor_bits(first.1@, second.1@) == bits_view(r as nat, num_bits)
    &&& EmbCnt::add_view(first.0@, second.0@) == (EmbView {
        count: r,
        embedding: constant_embedding(0),
    })
}

/// What the comparison of the shared number `x` with `const_r` gives where `r` masks `x`.
pub open spec fn lt_const_view(const_r: int, x: int, r: int) -> bool {
    let gap = 65535 - const_r;
    let a = field(x + r) % 65536;
    let b = field(x + r + gap) % 65536;
    ((r < a) != (r < b)) != (b < gap)
}

/// Whether some mask lets the comparison of `x` with `const_r` give `c`.
pub open spec fn comparison_gives(const_r: int, x: int, c: bool) -> bool {
    exists|r: int| 0 <= r < 64 && c == #[trigger] lt_const_view(const_r, x, r)
}

/// A summand may be reduced before it is added.
proof fn lemma_reduced_sum(a: int, b: int)
    ensures
        field(field(a) + b) == field(a + b),
        field(a + field(b)) == field(a + b),
{
    lemma_add_mod_noop_right(a, b, MODULUS as int);
    lemma_add_mod_noop_right(b, a, MODULUS as int);
}

/// Sixteen bits hold a small number.
proof fn lemma_sixteen_bits(r: nat)
    requires
        r < 64,
    ensures
        pow2(16) == 65536,
        bits_value(bits_view(r, 16)) == r,
{
    lemma2_to64();
    lemma_bits_value_of_view(r, 16);
}

/// What both parties open is the sum of the number and the mask, and the same with the gap added.
proof fn lemma_masked_sums(x_0: int, x_1: int, r_0: int, r_1: int, gap: int)
    ensures
        ({
            let a_0 = field(field(0 + x_0) + r_0);
            let a_1 = field(field(0 + x_1) + r_1);
            let x = field(x_0 + x_1);
            let r = field(r_0 + r_1);
            &&& field(field(0 + a_0) + a_1) == field(x + r)
            &&& field(field(0 + a_0) + field(a_1 + gap)) == field(x + r + gap)
        }),
{
    let x = field(x_0 + x_1);
    let r = field(r_0 + r_1);
    let a_0 = x_0 + r_0;
    let a_1 = x_1 + r_1;
    lemma_reduced_sum(x_0, r_0);
    lemma_reduced_sum(x_1, r_1);
    lemma_reduced_sum(0, field(a_0));
    lemma_reduced_sum(0, a_0);
    lemma_reduced_sum(a_0, field(a_1));
    lemma_reduced_sum(a_0, a_1);
    lemma_reduced_sum(a_1, gap);
    lemma_reduced_sum(a_0, field(a_1 + gap));
    lemma_reduced_sum(a_0, a_1 + gap);
    lemma_reduced_sum(x_0 + x_1, r);
    lemma_reduced_sum(x_0 + x_1, r_0 + r_1);
    lemma_reduced_sum(x_0 + x_1, r + gap);
    lemma_reduced_sum(r_0 + r_1, x_0 + x_1 + gap);
}

/// The number that the comparison of a threshold sees.
pub open spec fn threshold_view(threshold: EmbView) -> int {
    threshold.count % 0x1_0000_0000
}

impl GlimpseKeyCollection {
    /// Shares `bits`: the first share is `masks`, the second is what the bits differ from it by.
    pub fn share_with_masks(bits: &BitVector, masks: &[bool]) -> (r: (BitVector, BitVector))
        requires
            masks@.len() <= bits@.len(),
        ensures
            r.0@ == masks@,
            r.1@ == xor_bits(masks@, bits@),
            r.1@.len() == masks@.len(),
            forall|i: int|
                0 <= i < masks@.len() ==> #[trigger] r.1@[i] == (masks@[i] != bits@[i]),
    {
        let limit = bits.len();
        let mut sh_1 = BitVector::zeros(0);
        let mut sh_2 = BitVector::zeros(0);
        for i in 0..masks.len()
            invariant
                masks@.len() <= bits@.len(),
                bits@.len() == limit,
                limit <= usize::MAX / 8,
                sh_1@ =~= masks@.take(i as int),
                sh_2@ =~= xor_bits(masks@, bits@).take(i as int),
        {
            sh_1.push(masks[i]);
            let masked = sh_1.get(i) != bits.get(i);
            sh_2.push(masked);
        }
        (sh_1, sh_2)
    }

    /// Splits the first `num_bits` bits into two random-looking shares.
    pub fn secret_share_bool(bit_array: &BitVector, num_bits: usize) -> (r: (BitVector, BitVector))
        requires
            num_bits <= bit_array@.len(),
        ensures
            r.0@.len() == num_bits,
            r.1@.len() == num_bits,
            xor_bits(r.0@, r.1@) == bit_array@.take(num_bits as int),
            forall|i: int|
                0 <= i < num_bits ==> (#[trigger] r.0@[i] != r.1@[i]) == bit_array@[i],
    {
        let mut masks: Vec<bool> = Vec::new();
        for i in 0..num_bits
            invariant
                masks@.len() == i,
        {
            masks.push(random_bool());
        }
        let r = Self::share_with_masks(bit_array, &masks);
        assert(xor_bits(r.0@, r.1@) =~= bit_array@.take(num_bits as int));
        r
    }

    /// Oblivious transfer: the receiver with bit `receiver_b` learns that one of the sender's two
    /// messages.
    pub fn one_out_of_two_ot(dealer: &Dealer, receiver_b: u8, sender_m: &[u8]) -> (r: u8)
        requires
            receiver_b < 2,
            sender_m@.len() >= 2,
        ensures
            r == sender_m@[receiver_b as int],
    {
        proof {
            use_type_invariant(dealer);
        }
        let z = receiver_b ^ dealer.c;
        proof {
            let c = dealer.c;
            assert((z == 0) == (receiver_b == c)) by (bit_vector)
                requires
                    z == receiver_b ^ c,
            ;
        }
        let y: [u8; 2] = if z == 0 {
            [sender_m[0] ^ dealer.k[0], sender_m[1] ^ dealer.k[1]]
        } else {
            [sender_m[0] ^ dealer.k[1], sender_m[1] ^ dealer.k[0]]
        };
        proof {
            lemma_pad_cancels(sender_m@[receiver_b as int], dealer.kc);
        }
        y[receiver_b as usize] ^ dealer.kc
    }

    /// The or of two shared bits with the given masks and transfer randomness.
    ///
    /// The or is the complement of the product of the complements. The first party multiplies its
    /// own factors, the second party its own, and the mixed products go through oblivious transfer,
    /// masked by `r0` and `r1`.
    pub fn or_gate_with(
        x0: bool,
        y0: bool,
        x1: bool,
        y1: bool,
        r0: bool,
        r1: bool,
        dealer_0: &Dealer,
        dealer_1: &Dealer,
    ) -> (r: (bool, bool))
        ensures
            r.0 == ((!x0 && !y0) == (r0 != (r1 != (x1 && !y0)))),
            r.1 == ((x1 && y1) != (r1 != (r0 != (!x0 && y1)))),
            (r.0 != r.1) == ((x0 != x1) || (y0 != y1)),
    {
        // The second party receives r0 + (1 - x0) * y1.
        let masked_0: [u8; 2] = [bit_to_u8(r0), bit_to_u8(!x0 != r0)];
        let r0_x0y1 = Self::one_out_of_two_ot(dealer_0, bit_to_u8(y1), &masked_0) != 0;
        // The first party receives r1 + x1 * (1 - y0).
        let masked_1: [u8; 2] = [bit_to_u8(r1), bit_to_u8(x1 != r1)];
        let r1_x1y0 = Self::one_out_of_two_ot(dealer_1, bit_to_u8(!y0), &masked_1) != 0;
        let share_0 = (!x0 && !y0) == (r0 != r1_x1y0);
        let share_1 = (x1 && y1) != (r1 != r0_x0y1);
        (share_0, share_1)
    }

    /// The or of two shared bits.
    pub fn or_gate(x0: bool, y0: bool, x1: bool, y1: bool) -> (r: (bool, bool))
        ensures
            (r.0 != r.1) == ((x0 != x1) || (y0 != y1)),
    {
        let r0 = random_bool();
        let dealer_0 = Dealer::new();
        let r1 = random_bool();
        let dealer_1 = Dealer::new();
        Self::or_gate_with(x0, y0, x1, y1, r0, r1, &dealer_0, &dealer_1)
    }

    /// Compares the shared bits with the low bits of `const_r`: the shares of whether the number
    /// that the bits spell is smaller.
    pub fn lt_bits(const_r: u32, sh_0: &BitVector, sh_1: &BitVector) -> (r: (u8, u8))
        requires
            sh_0@.len() <= sh_1@.len(),
            sh_0@.len() <= 32,
        ensures
            r.0 < 2,
            r.1 < 2,
            (r.0 != r.1) == (bits_value(xor_bits(sh_0@, sh_1@)) < const_r as nat % pow2(
                sh_0@.len(),
            )),
    {
        let r_bits = u32_bits(const_r);
        let num_bits = sh_0.len();
        let ghost x = xor_bits(sh_0@, sh_1@);
        let ghost n = num_bits as int;

        // The bits in which the two numbers differ.
        let mut y_bits_0 = BitVector::zeros(num_bits);
        let mut y_bits_1 = BitVector::zeros(num_bits);
        for i in 0..num_bits
            invariant
                num_bits <= 32,
                num_bits == sh_0@.len(),
                num_bits <= sh_1@.len(),
                r_bits@.len() == 32,
                y_bits_0@.len() == num_bits,
                y_bits_1@.len() == num_bits,
                forall|j: int| 0 <= j < i ==> y_bits_0@[j] == (sh_0@[j] != r_bits@[j]),
                forall|j: int| 0 <= j < i ==> y_bits_1@[j] == sh_1@[j],
        {
            y_bits_0.set(i, sh_0.get(i) != r_bits[i]);
            y_bits_1.set(i, sh_1.get(i));
        }
        let ghost start = xor_bits(x, r_bits@);
        assert(xor_bits(y_bits_0@, y_bits_1@) =~= start);

        // The or of each bit with all bits above it. A last block that is cut short at the low end
        // takes part as far as it goes.
        let mut half: usize = 1;
        while half < num_bits
            invariant
                1 <= half,
                half <= 64,
                num_bits <= 32,
                n == num_bits,
                y_bits_0@.len() == num_bits,
                y_bits_1@.len() == num_bits,
                prefix_network(xor_bits(y_bits_0@, y_bits_1@), n, half as int) == prefix_network(
                    start,
                    n,
                    1,
                ),
            decreases
                    if half < num_bits {
                        num_bits - half
                    } else {
                        0
                    },
        {
            let ghost before = xor_bits(y_bits_0@, y_bits_1@);
            let full = 2 * half;
            let count = (num_bits + full - 1) / full;
            for j in 0..count
                invariant
                    count == round_blocks(num_bits as int, half as int),
                    1 <= half < num_bits,
                    full == 2 * half,
                    num_bits <= 32,
                    y_bits_0@.len() == num_bits,
                    y_bits_1@.len() == num_bits,
                    xor_bits(y_bits_0@, y_bits_1@) == blocks(before, half as int, j as int),
                    before.len() == num_bits,
            {
                assert(j * full < num_bits) by (nonlinear_arith)
                    requires
                        full > 0,
                        0 <= j < (num_bits + full - 1) / (full as int),
                ;
                let y: usize = half + j * full - 1;
                let ghost pre = xor_bits(y_bits_0@, y_bits_1@);
                for z in 1..full
                    invariant
                        1 <= half < num_bits,
                        full == 2 * half,
                        num_bits <= 32,
                        y_bits_0@.len() == num_bits,
                        y_bits_1@.len() == num_bits,
                        pre.len() == num_bits,
                        y < 128,
                        xor_bits(y_bits_0@, y_bits_1@) == spread(pre, y as int, z as int),
                {
                    if y + z < num_bits {
                        let idx_y = num_bits - 1 - y;
                        let (or_0, or_1) = Self::or_gate(
                            y_bits_0.get(idx_y),
                            y_bits_0.get(idx_y - z),
                            y_bits_1.get(idx_y),
                            y_bits_1.get(idx_y - z),
                        );
                        y_bits_0.set(idx_y - z, or_0);
                        y_bits_1.set(idx_y - z, or_1);
                    }
                    assert(xor_bits(y_bits_0@, y_bits_1@) =~= spread(pre, y as int, z + 1));
                }
            }
            half = full;
        }
        y_bits_0.push(false);
        y_bits_1.push(false);
        let ghost z_bits = prefix_network(start, n, 1);
        assert(xor_bits(y_bits_0@, y_bits_1@).take(n) =~= z_bits);

        // The single place where the or sets in, weighed by the public bit.
        let mut sum_0 = 0u8;
        let mut sum_1 = 0u8;
        for i in 0..num_bits
            invariant
                num_bits <= 32,
                n == num_bits,
                r_bits@.len() == 32,
                y_bits_0@.len() == num_bits + 1,
                y_bits_1@.len() == num_bits + 1,
                y_bits_0@[n] == false,
                y_bits_1@[n] == false,
                z_bits.len() == n,
                forall|j: int| 0 <= j < n ==> (y_bits_0@[j] != y_bits_1@[j]) == #[trigger] z_bits[j],
                sum_0 <= i,
                sum_1 <= i,
                ((sum_0 + sum_1) % 2 == 1) == change_parity(r_bits@, z_bits, i as int),
        {
            let w_0 = y_bits_0.get(i) != y_bits_0.get(i + 1);
            let w_1 = y_bits_1.get(i) != y_bits_1.get(i + 1);
            assert(i + 1 < n ==> (y_bits_0@[i + 1] != y_bits_1@[i + 1]) == z_bits[i + 1]);
            if r_bits[i] && w_0 {
                sum_0 = sum_0 + 1;
            }
            if r_bits[i] && w_1 {
                sum_1 = sum_1 + 1;
            }
        }
        proof {
            law_circuit_compares_number(const_r as nat, x);
        }
        (sum_0 % 2, sum_1 % 2)
    }

    /// The shares of the number `r`, as a count and as bits.
    pub fn share_edabit(r: u16, num_bits: usize) -> (e: (
        (EmbCnt, BitVector),
        (EmbCnt, BitVector),
    ))
        requires
            r < 64,
            num_bits <= 16,
        ensures
            is_edabit(e.0, e.1, num_bits as nat),
            field(e.0.0.count@ + e.1.0.count@) == r,
    {
        let r_bits = BitVector::from_u16(r);
        let (r_0_bits, r_1_bits) = Self::secret_share_bool(&r_bits, num_bits);
        let (r_0, r_1) = EmbCnt::from_count(r as u32).share();
        assert(bits_view(r as nat, 16).take(num_bits as int) =~= bits_view(
            r as nat,
            num_bits as nat,
        ));
        ((r_0, r_0_bits), (r_1, r_1_bits))
    }

    /// The shares of a random number below 64, as a count and as bits.
    pub fn get_rand_edabit(num_bits: usize) -> (e: ((EmbCnt, BitVector), (EmbCnt, BitVector)))
        requires
            num_bits <= 16,
        ensures
            is_edabit(e.0, e.1, num_bits as nat),
    {
        Self::share_edabit(random_below(64), num_bits)
    }

    /// What both parties learn when they open the shared count masked by a shared number: the masked
    /// count, and the masked count with `gap` added.
    fn open_masked(
        x_0: &EmbCnt,
        x_1: &EmbCnt,
        r_0: &EmbCnt,
        r_1: &EmbCnt,
        gap: u32,
    ) -> (opened: (u64, u64))
        ensures
            opened.0 == field(field(x_0.count@ + x_1.count@) + field(r_0.count@ + r_1.count@)),
            opened.1 == field(
                field(x_0.count@ + x_1.count@) + field(r_0.count@ + r_1.count@) + gap,
            ),
    {
        let mut a_0 = EmbCnt::zero();
        a_0.add(x_0);
        a_0.add(r_0);
        let mut a_1 = EmbCnt::zero();
        a_1.add(x_1);
        a_1.add(r_1);

        let b_0 = a_0.clone();
        let mut b_1 = a_1.clone();
        b_1.add(&EmbCnt::from_count(gap));

        let mut a = EmbCnt::zero();
        a.add(&a_0);
        a.add(&a_1);
        let mut b = EmbCnt::zero();
        b.add(&b_0);
        b.add(&b_1);
        proof {
            lemma_masked_sums(x_0.count@, x_1.count@, r_0.count@, r_1.count@, gap as int);
        }
        a.count.bounded();
        b.count.bounded();
        (a.value(), b.value())
    }

    /// Whether the shared number of sixteen bits is smaller than the low sixteen bits of `value`.
    fn lt_low_bits(value: u64, sh_0: &BitVector, sh_1: &BitVector) -> (c: bool)
        requires
            sh_0@.len() == 16,
            sh_1@.len() == 16,
        ensures
            c == (bits_value(xor_bits(sh_0@, sh_1@)) < value % 65536),
    {
        let low = (value % 0x1_0000_0000) as u32;
        let (w_0, w_1) = Self::lt_bits(low, sh_0, sh_1);
        proof {
            lemma_sixteen_bits(0);
        }
        w_0 != w_1
    }

    /// Compares the shared count with `const_r`, masked by the given shares of a random number.
    pub fn lt_const_with(
        const_r: u32,
        x_0: &EmbCnt,
        x_1: &EmbCnt,
        edabit_0: &(EmbCnt, BitVector),
        edabit_1: &(EmbCnt, BitVector),
    ) -> (c: bool)
        requires
            const_r <= 65535,
            is_edabit(*edabit_0, *edabit_1, 16),
        ensures
            c == lt_const_view(
                const_r as int,
                field(x_0.count@ + x_1.count@),
                field(edabit_0.0.count@ + edabit_1.0.count@),
            ),
    {
        let const_m: u32 = 65535;
        let gap = const_m - const_r;
        let (a_value, b_value) = Self::open_masked(x_0, x_1, &edabit_0.0, &edabit_1.0, gap);
        let ghost r = field(edabit_0.0.count@ + edabit_1.0.count@);
        proof {
            lemma_sixteen_bits(r as nat);
        }
        let w1 = Self::lt_low_bits(a_value, &edabit_0.1, &edabit_1.1);
        let w2 = Self::lt_low_bits(b_value, &edabit_0.1, &edabit_1.1);
        let w3 = b_value % 65536 < gap as u64;
        (w1 != w2) != w3
    }

    /// Compares the shared count with `const_r`.
    pub fn lt_const(const_r: u32, x_0: &EmbCnt, x_1: &EmbCnt) -> (c: bool)
        requires
            const_r <= 65535,
        ensures
            comparison_gives(const_r as int, field(x_0.count@ + x_1.count@), c),
            0 < field(x_0.count@ + x_1.count@) <= 65536 ==> c == (const_r + 1 < field(
                x_0.count@ + x_1.count@,
            )),
    {
        let (edabit_0, edabit_1) = Self::get_rand_edabit(16);
        let ghost r = field(edabit_0.0.count@ + edabit_1.0.count@);
        let ghost x = field(x_0.count@ + x_1.count@);
        let c = Self::lt_const_with(const_r, x_0, x_1, &edabit_0, &edabit_1);
        proof {
            assert(c == lt_const_view(const_r as int, x, r));
            if 0 < x <= 65536 {
                law_masked_comparison(const_r as int, x, r);
            }
        }
        c
    }

    /// For each pair of shares whether the shared count is above the threshold.
    pub fn keep_values(threshold: &EmbCnt, values_0: &[EmbCnt], values_1: &[EmbCnt]) -> (keep: Vec<
        bool,
    >)
        requires
            shorter(values_0@.len(), values_1@.len()) > 0 ==> threshold_view(threshold@) <= 65535,
        ensures
            keep@.len() == shorter(values_0@.len(), values_1@.len()),
            forall|i: int|
                0 <= i < keep@.len() ==> comparison_gives(
                    threshold_view(threshold@),
                    field(1 + values_0@[i].count@ + values_1@[i].count@),
                    #[trigger] keep@[i],
                ),
            forall|i: int|
                0 <= i < keep@.len() && field(values_0@[i].count@ + values_1@[i].count@) <= 65535
                    ==> #[trigger] keep@[i] == (field(values_0@[i].count@ + values_1@[i].count@)
                    > threshold_view(threshold@)),
            keep@.len() <= values_0@.len(),
            keep@.len() <= values_1@.len(),
            keep@.len() == values_0@.len() || keep@.len() == values_1@.len(),
            forall|i: int|
                0 <= i < keep@.len() && threshold.count@ <= 65535 && field(
                    values_0@[i].count@ + values_1@[i].count@,
                ) <= 65535 ==> #[trigger] keep@[i] == (field(
                    values_0@[i].count@ + values_1@[i].count@,
                ) > threshold.count@),
    {
        threshold.count.bounded();
        let const_r = (threshold.clone().value() % 0x1_0000_0000) as u32;
        let n = if values_0.len() < values_1.len() {
            values_0.len()
        } else {
            values_1.len()
        };
        let mut keep: Vec<bool> = Vec::new();
        for i in 0..n
            invariant
                n == shorter(values_0@.len(), values_1@.len()),
                const_r == threshold_view(threshold@),
                n > 0 ==> const_r <= 65535,
                keep@.len() == i,
                forall|j: int|
                    0 <= j < i ==> comparison_gives(
                        const_r as int,
                        field(1 + values_0@[j].count@ + values_1@[j].count@),
                        #[trigger] keep@[j],
                    ),
                forall|j: int|
                    0 <= j < i && field(values_0@[j].count@ + values_1@[j].count@) <= 65535
                        ==> #[trigger] keep@[j] == (field(values_0@[j].count@ + values_1@[j].count@)
                        > const_r),
        {
            let mut vals_0_one = EmbCnt::one();
            vals_0_one.add(&values_0[i]);
            let c = Self::lt_const(const_r, &vals_0_one, &values_1[i]);
            let ghost x = field(1 + values_0@[i as int].count@ + values_1@[i as int].count@);
            assert(field(vals_0_one.count@ + values_1@[i as int].count@) == x);
            let ghost count = field(values_0@[i as int].count@ + values_1@[i as int].count@);
            assert(count <= 65535 ==> x == count + 1);
            keep.push(c);
        }
        keep
    }

    /// For each pair of shares whether the shared count has reached the threshold.
    pub fn keep_values_last(
        threshold: &EmbCnt,
        cnt_values_0: &[EmbCnt],
        cnt_values_1: &[EmbCnt],
    ) -> (keep: Vec<bool>)
        ensures
            keep@.len() == shorter(cnt_values_0@.len(), cnt_values_1@.len()),
            forall|i: int|
                0 <= i < keep@.len() ==> #[trigger] keep@[i] == (field(
                    cnt_values_0@[i].count@ + cnt_values_1@[i].count@,
                ) >= threshold.count@),
            keep@.len() <= cnt_values_0@.len(),
            keep@.len() <= cnt_values_1@.len(),
            keep@.len() == cnt_values_0@.len() || keep@.len() == cnt_values_1@.len(),
    {
        let n = if cnt_values_0.len() < cnt_values_1.len() {
            cnt_values_0.len()
        } else {
            cnt_values_1.len()
        };
        let mut keep: Vec<bool> = Vec::new();
        for i in 0..n
            invariant
                n == shorter(cnt_values_0@.len(), cnt_values_1@.len()),
                keep@.len() == i,
                forall|j: int|
                    0 <= j < i ==> #[trigger] keep@[j] == (field(
                        cnt_values_0@[j].count@ + cnt_values_1@[j].count@,
                    ) >= threshold.count@),
        {
            let mut v = EmbCnt::zero();
            v.add(&cnt_values_0[i]);
            v.add(&cnt_values_1[i]);
            threshold.count.bounded();
            keep.push(v.count.value() >= threshold.count.value());
        }
        keep
    }
}

/// A bit as a byte.
fn bit_to_u8(b: bool) -> (r: u8)
    ensures
        r == if b {
            1u8
        } else {
            0u8
        },
{
    if b {
        1
    } else {
        0
    }
}

} // verus!
