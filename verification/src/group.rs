use vstd::prelude::*;

use crate::prg::FromRng;

verus! {

/// An additive abelian group, such as the integers modulo n.
///
/// Every operation is described by a function on the view of its operands. The group laws hold of
/// the views that `valid` admits; an element whose auxiliary part was dropped by `clear_aux` is the
/// usual example of one that is not valid.
pub trait Group: View + Sized {
    /// The views on which the group laws hold.
    spec fn valid(a: Self::V) -> bool;

    /// The neutral element.
    spec fn zero_view() -> Self::V;

    /// The distinguished element that a client contributes.
    spec fn one_view() -> Self::V;

    /// The inverse of `a`.
    spec fn neg_view(a: Self::V) -> Self::V;

    /// The sum of `a` and `b`.
    spec fn add_view(a: Self::V, b: Self::V) -> Self::V;

    /// The difference of `a` and `b`.
    spec fn sub_view(a: Self::V, b: Self::V) -> Self::V;

    /// The number that `a` stands for where only its count matters.
    spec fn value_view(a: Self::V) -> u64;

    /// `a` without its auxiliary part.
    spec fn clear_aux_view(a: Self::V) -> Self::V;

    /// The operations stay within the valid views.
    proof fn lemma_closed(a: Self::V, b: Self::V)
        requires
            Self::valid(a),
            Self::valid(b),
        ensures
            Self::valid(Self::zero_view()),
            Self::valid(Self::one_view()),
            Self::valid(Self::neg_view(a)),
            Self::valid(Self::add_view(a, b)),
            Self::valid(Self::sub_view(a, b)),
    ;

    /// Addition is commutative.
    proof fn lemma_commutative(a: Self::V, b: Self::V)
        requires
            Self::valid(a),
            Self::valid(b),
        ensures
            Self::add_view(a, b) == Self::add_view(b, a),
    ;

    /// Addition is associative.
    proof fn lemma_associative(a: Self::V, b: Self::V, c: Self::V)
        requires
            Self::valid(a),
            Self::valid(b),
            Self::valid(c),
        ensures
            Self::add_view(Self::add_view(a, b), c) == Self::add_view(a, Self::add_view(b, c)),
    ;

    /// Zero is neutral, an element and its inverse cancel, and subtracting is adding the inverse.
    proof fn lemma_inverse(a: Self::V, b: Self::V)
        requires
            Self::valid(a),
            Self::valid(b),
        ensures
            Self::valid(Self::zero_view()),
            Self::add_view(a, Self::zero_view()) == a,
            Self::add_view(a, Self::neg_view(a)) == Self::zero_view(),
            Self::sub_view(a, b) == Self::add_view(a, Self::neg_view(b)),
    ;

    /// Dropping the auxiliary part of the left operand commutes with the operations.
    proof fn lemma_clear_aux(a: Self::V, b: Self::V)
        ensures
            Self::add_view(Self::clear_aux_view(a), b) == Self::clear_aux_view(
                Self::add_view(a, b),
            ),
            Self::neg_view(Self::clear_aux_view(a)) == Self::clear_aux_view(Self::neg_view(a)),
            Self::value_view(Self::clear_aux_view(a)) == Self::value_view(a),
    ;

    fn zero() -> (r: Self)
        ensures
            r@ == Self::zero_view(),
    ;

    fn one() -> (r: Self)
        ensures
            r@ == Self::one_view(),
    ;

    fn negate(&mut self)
        ensures
            final(self)@ == Self::neg_view(old(self)@),
    ;

    fn add(&mut self, other: &Self)
        ensures
            final(self)@ == Self::add_view(old(self)@, other@),
    ;

    fn sub(&mut self, other: &Self)
        ensures
            final(self)@ == Self::sub_view(old(self)@, other@),
    ;

    fn value(self) -> (r: u64)
        ensures
            r == Self::value_view(self@),
    ;

    /// Frees the auxiliary payload for when only the count is needed.
    fn clear_aux(&mut self)
        ensures
            final(self)@ == Self::clear_aux_view(old(self)@),
    ;

    /// A copy of this element.
    fn duplicate(&self) -> (r: Self)
        ensures
            r@ == self@,
    ;

    /// Adds like `add`, in a form that may put off reduction until `reduce`.
    fn add_lazy(&mut self, other: &Self)
        ensures
            final(self)@ == Self::add_view(old(self)@, other@),
    {
        self.add(other);
    }

    /// Finishes what lazy operations put off.
    fn reduce(&mut self)
        ensures
            final(self)@ == old(self)@,
    {
    }
}

/// The sum of two valid elements shared as `s` and `a - s` is `a` again.
pub proof fn lemma_shares_add_up<T: Group>(a: T::V, s: T::V)
    requires
        T::valid(a),
        T::valid(s),
    ensures
        T::add_view(s, T::sub_view(a, s)) == a,
{
    T::lemma_closed(s, a);
    T::lemma_closed(a, s);
    T::lemma_inverse(a, s);
    T::lemma_inverse(s, s);
    let n = T::neg_view(s);
    T::lemma_commutative(s, T::add_view(a, n));
    T::lemma_associative(a, n, s);
    T::lemma_commutative(n, s);
}

/// A group whose elements can be split into two random-looking summands.
pub trait Share: Group + FromRng {
    /// An element drawn at random.
    fn random() -> (r: Self)
        ensures
            Self::valid(r@),
    {
        let mut out = Self::zero();
        out.randomize();
        out
    }

    /// Splits this element: the first share is random, the second is what it lacks.
    fn share(&self) -> (r: (Self, Self))
        ensures
            Self::valid(r.0@),
            r.1@ == Self::sub_view(self@, r.0@),
            Self::valid(self@) ==> Self::add_view(r.0@, r.1@) == self@,
    {
        let mut s0 = Self::zero();
        s0.randomize();
        let mut s1 = self.duplicate();
        s1.sub(&s0);
        proof {
            if Self::valid(self@) {
                lemma_shares_add_up::<Self>(self@, s0@);
            }
        }
        (s0, s1)
    }

    /// Two independent random elements.
    fn share_random() -> (r: (Self, Self))
        ensures
            Self::valid(r.0@),
            Self::valid(r.1@),
    {
        (Self::random(), Self::random())
    }
}

/// Wrapping arithmetic on 64-bit words.
impl Group for u64 {
    open spec fn valid(a: u64) -> bool {
        true
    }

    open spec fn zero_view() -> u64 {
        0
    }

    open spec fn one_view() -> u64 {
        1
    }

    open spec fn neg_view(a: u64) -> u64 {
        if a == 0 {
            0
        } else {
            (0x1_0000_0000_0000_0000 - a) as u64
        }
    }

    open spec fn add_view(a: u64, b: u64) -> u64 {
        if a + b <= u64::MAX {
            (a + b) as u64
        } else {
            (a + b - 0x1_0000_0000_0000_0000) as u64
        }
    }

    open spec fn sub_view(a: u64, b: u64) -> u64 {
        if a >= b {
            (a - b) as u64
        } else {
            (a - b + 0x1_0000_0000_0000_0000) as u64
        }
    }

    open spec fn value_view(a: u64) -> u64 {
        a
    }

    open spec fn clear_aux_view(a: u64) -> u64 {
        a
    }

    proof fn lemma_closed(a: u64, b: u64) {
    }

    proof fn lemma_commutative(a: u64, b: u64) {
    }

    proof fn lemma_associative(a: u64, b: u64, c: u64) {
    }

    proof fn lemma_inverse(a: u64, b: u64) {
    }

    proof fn lemma_clear_aux(a: u64, b: u64) {
    }

    fn zero() -> (r: Self) {
        0
    }

    fn one() -> (r: Self) {
        1
    }

    fn negate(&mut self) {
        *self = 0u64.wrapping_sub(*self);
    }

    fn add(&mut self, other: &Self) {
        *self = (*self).wrapping_add(*other);
    }

    fn sub(&mut self, other: &Self) {
        *self = (*self).wrapping_sub(*other);
    }

    fn value(self) -> (r: u64) {
        self
    }

    fn clear_aux(&mut self) {
    }

    fn duplicate(&self) -> (r: Self) {
        *self
    }
}

impl Share for u64 {

}

} // verus!
