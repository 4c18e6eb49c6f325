use vstd::prelude::*;

pub use crate::consts::DIM;
use crate::field::{fe_drawn, fe_rest, field, lemma_draw_in_field, period, FE, MODULUS};
use crate::group::{Group, Share};
use crate::prg::{FromRng, PrgStream, StreamView};

verus! {

/// A count together with the sum of the embeddings that were counted.
#[derive(Debug)]
pub struct EmbCnt {
    pub count: FE,
    pub embedding: Vec<u32>,
}

/// The model of an `EmbCnt`.
#[verifier::ext_equal]
pub struct EmbView {
    pub count: int,
    pub embedding: Seq<u32>,
}

impl View for EmbCnt {
    type V = EmbView;

    open spec fn view(&self) -> EmbView {
        EmbView { count: self.count@, embedding: self.embedding@ }
    }
}

/// An embedding whose components are all `x`.
pub open spec fn constant_embedding(x: u32) -> Seq<u32> {
    Seq::new(DIM as nat, |i: int| x)
}

/// The sum of two 32-bit words, with wrap-around.
pub open spec fn wrap_add(a: u32, b: u32) -> u32 {
    if a + b <= u32::MAX {
        (a + b) as u32
    } else {
        (a + b - 0x1_0000_0000) as u32
    }
}

/// The difference of two 32-bit words, with wrap-around.
pub open spec fn wrap_sub(a: u32, b: u32) -> u32 {
    if a >= b {
        (a - b) as u32
    } else {
        (a - b + 0x1_0000_0000) as u32
    }
}

/// The components of `b` added to those of `a`; components without a partner stay as they are.
pub open spec fn emb_add(a: Seq<u32>, b: Seq<u32>) -> Seq<u32> {
    Seq::new(
        a.len(),
        |i: int|
            if i < b.len() {
                wrap_add(a[i], b[i])
            } else {
                a[i]
            },
    )
}

/// The components of `b` subtracted from those of `a`; components without a partner stay as they
/// are.
pub open spec fn emb_sub(a: Seq<u32>, b: Seq<u32>) -> Seq<u32> {
    Seq::new(
        a.len(),
        |i: int|
            if i < b.len() {
                wrap_sub(a[i], b[i])
            } else {
                a[i]
            },
    )
}

/// The components of `a` negated.
pub open spec fn emb_neg(a: Seq<u32>) -> Seq<u32> {
    Seq::new(a.len(), |i: int| wrap_sub(0, a[i]))
}

/// An embedding whose components are all `x`.
fn filled(x: u32) -> (r: Vec<u32>)
    ensures
        r@ == constant_embedding(x),
{
    let r = vec![x; DIM];
    assert(r@ =~= constant_embedding(x));
    r
}

impl EmbCnt {
    /// The count `x` with an embedding of zeros.
    pub fn from_count(x: u32) -> (r: EmbCnt)
        ensures
            r@ == (EmbView { count: x as int, embedding: constant_embedding(0) }),
    {
        EmbCnt { count: FE::new(x as u64), embedding: filled(0) }
    }
}

impl Clone for EmbCnt {
    fn clone(&self) -> (r: Self)
        ensures
            r@ == self@,
    {
        self.duplicate()
    }
}

impl Group for EmbCnt {
    open spec fn valid(a: EmbView) -> bool {
        0 <= a.count < MODULUS && a.embedding.len() == DIM
    }

    open spec fn zero_view() -> EmbView {
        EmbView { count: 0, embedding: constant_embedding(0) }
    }

    open spec fn one_view() -> EmbView {
        EmbView { count: 1, embedding: constant_embedding(1) }
    }

    open spec fn neg_view(a: EmbView) -> EmbView {
        EmbView { count: field(-a.count), embedding: emb_neg(a.embedding) }
    }

    open spec fn add_view(a: EmbView, b: EmbView) -> EmbView {
        EmbView { count: field(a.count + b.count), embedding: emb_add(a.embedding, b.embedding) }
    }

    open spec fn sub_view(a: EmbView, b: EmbView) -> EmbView {
        EmbView { count: field(a.count - b.count), embedding: emb_sub(a.embedding, b.embedding) }
    }

    open spec fn value_view(a: EmbView) -> u64 {
        a.count as u64
    }

    open spec fn clear_aux_view(a: EmbView) -> EmbView {
        EmbView { count: a.count, embedding: Seq::empty() }
    }

    proof fn lemma_closed(a: EmbView, b: EmbView) {
    }

    proof fn lemma_commutative(a: EmbView, b: EmbView) {
        assert(emb_add(a.embedding, b.embedding) =~= emb_add(b.embedding, a.embedding));
    }

    proof fn lemma_associative(a: EmbView, b: EmbView, c: EmbView) {
        assert(emb_add(emb_add(a.embedding, b.embedding), c.embedding) =~= emb_add(
            a.embedding,
            emb_add(b.embedding, c.embedding),
        ));
    }

    proof fn lemma_inverse(a: EmbView, b: EmbView) {
        assert(emb_add(a.embedding, constant_embedding(0)) =~= a.embedding);
        assert(emb_add(a.embedding, emb_neg(a.embedding)) =~= constant_embedding(0));
        assert(emb_sub(a.embedding, b.embedding) =~= emb_add(a.embedding, emb_neg(b.embedding)));
    }

    proof fn lemma_clear_aux(a: EmbView, b: EmbView) {
        assert(emb_add(Seq::empty(), b.embedding) =~= Seq::empty());
        assert(emb_neg(Seq::empty()) =~= Seq::empty());
    }

    fn zero() -> (r: Self) {
        EmbCnt { count: FE::new(0), embedding: filled(0) }
    }

    fn one() -> (r: Self) {
        EmbCnt { count: FE::new(1), embedding: filled(1) }
    }

    fn negate(&mut self) {
        self.count.negate();
        let ghost before = self.embedding@;
        let n = self.embedding.len();
        for i in 0..n
            invariant
                n == self.embedding@.len(),
                before.len() == n,
                self.count@ == field(-old(self).count@),
                forall|j: int| 0 <= j < i ==> self.embedding@[j] == wrap_sub(0, before[j]),
                forall|j: int| i <= j < n ==> self.embedding@[j] == before[j],
        {
            let x: u32 = self.embedding[i];
            self.embedding[i] = 0u32.wrapping_sub(x);
        }
        assert(self.embedding@ =~= emb_neg(before));
    }

    fn add(&mut self, other: &Self) {
        self.count.add(&other.count);
        let ghost before = self.embedding@;
        let n = self.embedding.len();
        for i in 0..n
            invariant
                n == self.embedding@.len(),
                before.len() == n,
                self.count@ == field(old(self).count@ + other.count@),
                forall|j: int|
                    0 <= j < i ==> self.embedding@[j] == emb_add(before, other.embedding@)[j],
                forall|j: int| i <= j < n ==> self.embedding@[j] == before[j],
        {
            if i < other.embedding.len() {
                let x: u32 = self.embedding[i];
                self.embedding[i] = x.wrapping_add(other.embedding[i]);
            }
        }
        assert(self.embedding@ =~= emb_add(before, other.embedding@));
    }

    fn sub(&mut self, other: &Self) {
        self.count.sub(&other.count);
        let ghost before = self.embedding@;
        let n = self.embedding.len();
        for i in 0..n
            invariant
                n == self.embedding@.len(),
                before.len() == n,
                self.count@ == field(old(self).count@ - other.count@),
                forall|j: int|
                    0 <= j < i ==> self.embedding@[j] == emb_sub(before, other.embedding@)[j],
                forall|j: int| i <= j < n ==> self.embedding@[j] == before[j],
        {
            if i < other.embedding.len() {
                let x: u32 = self.embedding[i];
                self.embedding[i] = x.wrapping_sub(other.embedding[i]);
            }
        }
        assert(self.embedding@ =~= emb_sub(before, other.embedding@));
    }

    /// The count alone.
    fn value(self) -> (r: u64) {
        self.count.value()
    }

    /// Frees the embedding once it has been summed up; the count survives.
    fn clear_aux(&mut self) {
        self.embedding = Vec::new();
    }

    fn duplicate(&self) -> (r: Self) {
        EmbCnt { count: self.count, embedding: self.embedding.clone() }
    }
}

impl FromRng for EmbCnt {
    open spec fn drawn(s: StreamView) -> EmbView {
        EmbView {
            count: fe_drawn(s),
            embedding: Seq::new(DIM as nat, |i: int| fe_rest(s).word32(i)),
        }
    }

    open spec fn drawn_rest(s: StreamView) -> StreamView {
        fe_rest(s).ahead((DIM / 8) as nat)
    }

    open spec fn drawn_no_aux(s: StreamView) -> EmbView {
        EmbView { count: fe_drawn(s), embedding: Seq::empty() }
    }

    open spec fn drawn_no_aux_rest(s: StreamView) -> StreamView {
        fe_rest(s)
    }

    proof fn lemma_drawn(s: StreamView) {
        lemma_draw_in_field(s, period());
        assert(Self::drawn_no_aux(s) == Self::clear_aux_view(Self::drawn(s)));
    }

    fn from_rng(&mut self, rng: &mut PrgStream) {
        self.count = FE::draw(rng);
        self.embedding = rng.next_u32s(DIM / 8);
        assert(rng@ == Self::drawn_rest(old(rng)@));
    }

    fn from_rng_no_aux(&mut self, rng: &mut PrgStream) {
        self.count = FE::draw(rng);
        self.embedding = Vec::new();
        assert(rng@ == Self::drawn_no_aux_rest(old(rng)@));
    }
}

impl Share for EmbCnt {

}

/// The payload of a key: a count with its embedding, and the authentication code of the count.
impl Group for (EmbCnt, FE) {
    open spec fn valid(a: (EmbView, int)) -> bool {
        EmbCnt::valid(a.0) && FE::valid(a.1)
    }

    open spec fn zero_view() -> (EmbView, int) {
        (EmbCnt::zero_view(), FE::zero_view())
    }

    open spec fn one_view() -> (EmbView, int) {
        (EmbCnt::one_view(), FE::one_view())
    }

    open spec fn neg_view(a: (EmbView, int)) -> (EmbView, int) {
        (EmbCnt::neg_view(a.0), FE::neg_view(a.1))
    }

    open spec fn add_view(a: (EmbView, int), b: (EmbView, int)) -> (EmbView, int) {
        (EmbCnt::add_view(a.0, b.0), FE::add_view(a.1, b.1))
    }

    open spec fn sub_view(a: (EmbView, int), b: (EmbView, int)) -> (EmbView, int) {
        (EmbCnt::sub_view(a.0, b.0), FE::sub_view(a.1, b.1))
    }

    open spec fn value_view(a: (EmbView, int)) -> u64 {
        0
    }

    open spec fn clear_aux_view(a: (EmbView, int)) -> (EmbView, int) {
        (EmbCnt::clear_aux_view(a.0), a.1)
    }

    proof fn lemma_closed(a: (EmbView, int), b: (EmbView, int)) {
        EmbCnt::lemma_closed(a.0, b.0);
        FE::lemma_closed(a.1, b.1);
    }

    proof fn lemma_commutative(a: (EmbView, int), b: (EmbView, int)) {
        EmbCnt::lemma_commutative(a.0, b.0);
        FE::lemma_commutative(a.1, b.1);
    }

    proof fn lemma_associative(a: (EmbView, int), b: (EmbView, int), c: (EmbView, int)) {
        EmbCnt::lemma_associative(a.0, b.0, c.0);
        FE::lemma_associative(a.1, b.1, c.1);
    }

    proof fn lemma_inverse(a: (EmbView, int), b: (EmbView, int)) {
        EmbCnt::lemma_inverse(a.0, b.0);
        FE::lemma_inverse(a.1, b.1);
    }

    proof fn lemma_clear_aux(a: (EmbView, int), b: (EmbView, int)) {
        EmbCnt::lemma_clear_aux(a.0, b.0);
    }

    fn zero() -> (r: Self) {
        (EmbCnt::zero(), FE::new(0))
    }

    fn one() -> (r: Self) {
        (EmbCnt::one(), FE::new(1))
    }

    fn negate(&mut self) {
        self.0.negate();
        self.1.negate();
    }

    fn add(&mut self, other: &Self) {
        self.0.add(&other.0);
        self.1.add(&other.1);
    }

    fn sub(&mut self, other: &Self) {
        self.0.sub(&other.0);
        self.1.sub(&other.1);
    }

    /// Not meaningful for a pair.
    fn value(self) -> (r: u64) {
        0
    }

    fn clear_aux(&mut self) {
        self.0.clear_aux();
    }

    fn duplicate(&self) -> (r: Self) {
        (self.0.duplicate(), self.1)
    }
}

impl FromRng for (EmbCnt, FE) {
    open spec fn drawn(s: StreamView) -> (EmbView, int) {
        (
            EmbView {
                count: fe_drawn(s),
                embedding: Seq::new(DIM as nat, |i: int| fe_rest(fe_rest(s)).word32(i)),
            },
            fe_drawn(fe_rest(s)),
        )
    }

    open spec fn drawn_rest(s: StreamView) -> StreamView {
        fe_rest(fe_rest(s)).ahead((DIM / 8) as nat)
    }

    open spec fn drawn_no_aux(s: StreamView) -> (EmbView, int) {
        (EmbView { count: fe_drawn(s), embedding: Seq::empty() }, fe_drawn(fe_rest(s)))
    }

    open spec fn drawn_no_aux_rest(s: StreamView) -> StreamView {
        fe_rest(fe_rest(s))
    }

    proof fn lemma_drawn(s: StreamView) {
        lemma_draw_in_field(s, period());
        lemma_draw_in_field(fe_rest(s), period());
        assert(Self::drawn_no_aux(s) == Self::clear_aux_view(Self::drawn(s)));
    }

    /// The count comes first, then its authentication code, and the embedding last, so that
    /// `from_rng_no_aux` can stop before the embedding.
    fn from_rng(&mut self, rng: &mut PrgStream) {
        self.0.count = FE::draw(rng);
        self.1 = FE::draw(rng);
        self.0.embedding = rng.next_u32s(DIM / 8);
        assert(rng@ == Self::drawn_rest(old(rng)@));
    }

    fn from_rng_no_aux(&mut self, rng: &mut PrgStream) {
        self.0.count = FE::draw(rng);
        self.1 = FE::draw(rng);
        self.0.embedding = Vec::new();
        assert(rng@ == Self::drawn_no_aux_rest(old(rng)@));
    }
}

} // verus!
