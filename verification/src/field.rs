use vstd::prelude::*;

use crate::group::{Group, Share};
use crate::prg::{FromRng, PrgStream, StreamView};

verus! {

/// The prime 2^62 - 2^16 + 1.
pub const MODULUS: u64 = 0x3fff_ffff_ffff_0001;

/// An element of the field of integers modulo `MODULUS`; its view is its least nonnegative
/// representative.
#[derive(Clone, Copy, Debug)]
pub struct FE {
    value: u64,
}

impl View for FE {
    type V = int;

    closed spec fn view(&self) -> int {
        self.value as int
    }
}

/// Reduces an integer to its representative in the field.
pub open spec fn field(x: int) -> int {
    x % (MODULUS as int)
}

/// The product of two field elements.
pub open spec fn field_mul(a: int, b: int) -> int {
    field(a * b)
}

/// The field element that a random word stands for: its low 62 bits, unless they exceed the field.
pub open spec fn unbiased_view(word: u64) -> Option<int> {
    let low = (word % 0x4000_0000_0000_0000) as int;
    if low < MODULUS {
        Some(low)
    } else {
        None
    }
}

/// The number of words after which a stream repeats itself.
pub open spec fn period() -> nat {
    0x1_0000_0000_0000_0000
}

/// The first field element that the words of a stream offer, and what is left of the stream. After
/// `tries` words without one the element is zero.
pub open spec fn draw_view(s: StreamView, tries: nat) -> (int, StreamView)
    decreases tries,
{
    if tries == 0 {
        (0, s)
    } else {
        match unbiased_view(s.word()) {
            Some(x) => (x, s.next()),
            None => draw_view(s.next(), (tries - 1) as nat),
        }
    }
}

/// The first field element that the words of a stream offer; zero where none of them ever offers
/// one.
pub open spec fn fe_drawn(s: StreamView) -> int {
    draw_view(s, period()).0
}

/// What is left of a stream once its first field element was taken.
pub open spec fn fe_rest(s: StreamView) -> StreamView {
    draw_view(s, period()).1
}

/// What is drawn is an element of the field.
pub proof fn lemma_draw_in_field(s: StreamView, tries: nat)
    ensures
        0 <= draw_view(s, tries).0 < MODULUS,
    decreases tries,
{
    if tries > 0 && unbiased_view(s.word()) is None {
        lemma_draw_in_field(s.next(), (tries - 1) as nat);
    }
}

/// Going on is the same in one step and in two.
proof fn lemma_ahead(s: StreamView, m: nat, n: nat)
    ensures
        s.ahead(m).ahead(n) == s.ahead(m + n),
        s.ahead(period()) == s,
        s.ahead(0) == s,
{
}

/// A draw with enough tries takes the first acceptable word.
proof fn lemma_draw_first(s: StreamView, n: nat, tries: nat)
    requires
        n < tries,
        unbiased_view(s.ahead(n).word()) is Some,
        forall|m: nat| m < n ==> unbiased_view(#[trigger] s.ahead(m).word()) is None,
    ensures
        Some(draw_view(s, tries).0) == unbiased_view(s.ahead(n).word()),
        draw_view(s, tries).1 == s.ahead(n + 1),
    decreases n,
{
    lemma_ahead(s, 0, 0);
    if n > 0 {
        assert(unbiased_view(s.ahead(0).word()) is None);
        let m = (n - 1) as nat;
        lemma_ahead(s, 1, m);
        lemma_ahead(s, 1, n);
        assert forall|k: nat| k < m implies unbiased_view(
            #[trigger] s.next().ahead(k).word(),
        ) is None by {
            lemma_ahead(s, 1, k);
            assert(unbiased_view(s.ahead(1 + k).word()) is None);
        }
        lemma_draw_first(s.next(), m, (tries - 1) as nat);
    }
}

/// Sampling goes on until it succeeds: what is drawn is the first acceptable word of the stream,
/// however far on it stands, and the stream goes on behind it.
pub proof fn law_draw_until_success(s: StreamView, n: nat)
    requires
        unbiased_view(s.ahead(n).word()) is Some,
        forall|m: nat| m < n ==> unbiased_view(#[trigger] s.ahead(m).word()) is None,
    ensures
        Some(fe_drawn(s)) == unbiased_view(s.ahead(n).word()),
        fe_rest(s) == s.ahead(n + 1),
{
    if n >= period() {
        let m = (n - period()) as nat;
        lemma_ahead(s, period(), m);
        assert(unbiased_view(s.ahead(m).word()) is None);
    }
    lemma_draw_first(s, n, period());
}

impl FE {
    #[verifier::type_invariant]
    spec fn in_field(self) -> bool {
        self.value < MODULUS
    }

    /// The element that `x` reduces to.
    pub fn new(x: u64) -> (r: FE)
        ensures
            r@ == field(x as int),
            0 <= r@ < MODULUS,
    {
        FE { value: x % MODULUS }
    }

    /// The element that the low 62 bits of `word` stand for, or none where they exceed the field.
    /// Every element comes from the same number of words.
    pub fn from_u64_unbiased(word: u64) -> (r: Option<FE>)
        ensures
            match r {
                Some(x) => unbiased_view(word) == Some(x@) && 0 <= x@ < MODULUS,
                None => unbiased_view(word) is None,
            },
    {
        let low: u64 = word % 0x4000_0000_0000_0000;
        if low < MODULUS {
            Some(FE { value: low })
        } else {
            None
        }
    }

    /// Rejection-samples a uniform element from the words of `rng`.
    ///
    /// It samples until it succeeds. Only where the whole stream, before it repeats, holds no
    /// acceptable word is the search given up, with zero.
    pub fn draw(rng: &mut PrgStream) -> (r: FE)
        ensures
            r@ == fe_drawn(old(rng)@),
            final(rng)@ == fe_rest(old(rng)@),
            0 <= r@ < MODULUS,
    {
        let ghost start = rng@;
        let mut left: u64 = u64::MAX;
        loop
            invariant_except_break
                start == old(rng)@,
                draw_view(rng@, (left + 1) as nat) == draw_view(start, period()),
            ensures
                start == old(rng)@,
                draw_view(rng@, 0) == draw_view(start, period()),
            decreases left,
        {
            let word = rng.next_u64();
            if let Some(x) = FE::from_u64_unbiased(word) {
                return x;
            }
            if left == 0 {
                break;
            }
            left -= 1;
        }
        FE { value: 0 }
    }

    /// Multiplies by `other`.
    pub fn mul(&mut self, other: &FE)
        ensures
            final(self)@ == field_mul(old(self)@, other@),
            0 <= final(self)@ < MODULUS,
    {
        proof {
            use_type_invariant(&*self);
            use_type_invariant(other);
        }
        let a: u64 = self.value;
        let b: u64 = other.value;
        assert(a * b <= 0x3fff_ffff_ffff_ffff * 0x3fff_ffff_ffff_ffff) by (nonlinear_arith)
            requires
                a <= 0x3fff_ffff_ffff_ffff,
                b <= 0x3fff_ffff_ffff_ffff,
        ;
        let product: u128 = (a as u128) * (b as u128);
        let reduced: u64 = (product % (MODULUS as u128)) as u64;
        *self = FE { value: reduced };
    }

    /// Multiplies by `other`, in a form that may put off reduction until `reduce`.
    pub fn mul_lazy(&mut self, other: &FE)
        ensures
            final(self)@ == field_mul(old(self)@, other@),
            0 <= final(self)@ < MODULUS,
    {
        self.mul(other);
    }

    /// An element is always less than the modulus.
    pub fn bounded(&self)
        ensures
            0 <= self@ < MODULUS,
    {
        proof {
            use_type_invariant(self);
        }
    }
}

impl Group for FE {
    open spec fn valid(a: int) -> bool {
        0 <= a < MODULUS
    }

    open spec fn zero_view() -> int {
        0
    }

    open spec fn one_view() -> int {
        1
    }

    open spec fn neg_view(a: int) -> int {
        field(-a)
    }

    open spec fn add_view(a: int, b: int) -> int {
        field(a + b)
    }

    open spec fn sub_view(a: int, b: int) -> int {
        field(a - b)
    }

    open spec fn value_view(a: int) -> u64 {
        a as u64
    }

    open spec fn clear_aux_view(a: int) -> int {
        a
    }

    proof fn lemma_closed(a: int, b: int) {
    }

    proof fn lemma_commutative(a: int, b: int) {
    }

    proof fn lemma_associative(a: int, b: int, c: int) {
    }

    proof fn lemma_inverse(a: int, b: int) {
    }

    proof fn lemma_clear_aux(a: int, b: int) {
    }

    fn zero() -> (r: Self) {
        FE { value: 0 }
    }

    fn one() -> (r: Self) {
        FE { value: 1 }
    }

    fn negate(&mut self) {
        proof {
            use_type_invariant(&*self);
        }
        if self.value != 0 {
            *self = FE { value: MODULUS - self.value };
        }
    }

    fn add(&mut self, other: &Self) {
        proof {
            use_type_invariant(&*self);
            use_type_invariant(other);
        }
        *self = FE { value: (self.value + other.value) % MODULUS };
        assert(self@ == Self::add_view(old(self)@, other@));
    }

    fn sub(&mut self, other: &Self) {
        proof {
            use_type_invariant(&*self);
            use_type_invariant(other);
        }
        *self = FE { value: (self.value + (MODULUS - other.value)) % MODULUS };
    }

    fn value(self) -> (r: u64) {
        self.value
    }

    fn clear_aux(&mut self) {
    }

    fn duplicate(&self) -> (r: Self) {
        *self
    }
}

impl FromRng for FE {
    open spec fn drawn(s: StreamView) -> int {
        fe_drawn(s)
    }

    open spec fn drawn_rest(s: StreamView) -> StreamView {
        fe_rest(s)
    }

    open spec fn drawn_no_aux(s: StreamView) -> int {
        fe_drawn(s)
    }

    open spec fn drawn_no_aux_rest(s: StreamView) -> StreamView {
        fe_rest(s)
    }

    proof fn lemma_drawn(s: StreamView) {
        lemma_draw_in_field(s, period());
        assert(Self::drawn_no_aux(s) == Self::clear_aux_view(Self::drawn(s)));
    }

    fn from_rng(&mut self, rng: &mut PrgStream) {
        *self = FE::draw(rng);
        assert(rng@ == Self::drawn_rest(old(rng)@));
    }

    fn from_rng_no_aux(&mut self, rng: &mut PrgStream) {
        *self = FE::draw(rng);
        assert(rng@ == Self::drawn_no_aux_rest(old(rng)@));
    }
}

impl Share for FE {

}

} // verus!
