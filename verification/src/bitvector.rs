use bitvec::order::Lsb0;
use bitvec::vec::BitVec;
use bitvec::view::BitView;
use vstd::prelude::*;

use crate::bits::bits_view;

verus! {

/// A growable string of bits, least significant first.
///
/// Trusted: it holds a `bitvec::vec::BitVec`, whose contents `bits_of` names.
#[verifier::external_body]
pub struct BitVector(BitVec<u16, Lsb0>);

/// The bits that a `BitVector` holds.
pub uninterp spec fn bits_of(v: BitVector) -> Seq<bool>;

impl View for BitVector {
    type V = Seq<bool>;

    open spec fn view(&self) -> Seq<bool> {
        bits_of(*self)
    }
}

impl BitVector {
    /// Calls `BitVec::repeat`.
    ///
    /// Trusted: the result holds `bit` `len` times. A length beyond what a bit vector can hold,
    /// an eighth of the address space, is left out.
    #[verifier::external_body]
    fn repeat(bit: bool, len: usize) -> (r: BitVector)
        requires
            len <= usize::MAX / 8,
        ensures
            bits_of(r) == Seq::new(len as nat, |i: int| bit),
    {
        BitVector(BitVec::repeat(bit, len))
    }

    /// Calls `BitVec::push`.
    ///
    /// Trusted: the bit is appended. A full bit vector is left out.
    #[verifier::external_body]
    pub(crate) fn push(&mut self, bit: bool)
        requires
            bits_of(*old(self)).len() < usize::MAX / 8,
        ensures
            bits_of(*final(self)) == bits_of(*old(self)).push(bit),
    {
        self.0.push(bit)
    }

    /// Calls `BitVec::len`.
    ///
    /// Trusted: the number of bits held, which is at most an eighth of the address space.
    #[verifier::external_body]
    pub(crate) fn len(&self) -> (r: usize)
        ensures
            r == bits_of(*self).len(),
            r <= usize::MAX / 8,
    {
        self.0.len()
    }

    /// Calls `BitVec`'s `index`.
    ///
    /// Trusted: the bit at the index. An index out of bounds is left out.
    #[verifier::external_body]
    pub(crate) fn get(&self, index: usize) -> (r: bool)
        requires
            index < bits_of(*self).len(),
        ensures
            r == bits_of(*self)[index as int],
    {
        self.0[index]
    }

    /// Calls `BitSlice::set`.
    ///
    /// Trusted: the bit at the index is replaced and the others stay. An index out of bounds is
    /// left out.
    #[verifier::external_body]
    pub(crate) fn set(&mut self, index: usize, bit: bool)
        requires
            index < bits_of(*old(self)).len(),
        ensures
            bits_of(*final(self)) == bits_of(*old(self)).update(index as int, bit),
    {
        self.0.set(index, bit)
    }

    /// Calls `BitView::view_bits` on a 16-bit word and `BitSlice::to_bitvec`.
    ///
    /// Trusted: the bits of the word, least significant first.
    #[verifier::external_body]
    pub(crate) fn from_u16(x: u16) -> (r: BitVector)
        ensures
            bits_of(r) == bits_view(x as nat, 16),
    {
        BitVector(x.view_bits::<Lsb0>().to_bitvec())
    }

    /// `len` zeros.
    pub fn zeros(len: usize) -> (r: BitVector)
        requires
            len <= usize::MAX / 8,
        ensures
            r@ == Seq::new(len as nat, |i: int| false),
    {
        BitVector::repeat(false, len)
    }

    /// The given bits.
    pub fn from_bits(bits: &[bool]) -> (r: BitVector)
        requires
            bits@.len() <= usize::MAX / 8,
        ensures
            r@ == bits@,
    {
        let mut r = BitVector::zeros(0);
        assert(r@ =~= bits@.take(0));
        for i in 0..bits.len()
            invariant
                bits@.len() <= usize::MAX / 8,
                r@ == bits@.take(i as int),
        {
            r.push(bits[i]);
            assert(r@ =~= bits@.take(i + 1));
        }
        assert(bits@.take(bits@.len() as int) =~= bits@);
        r
    }

    /// The bits one by one.
    pub fn to_bits(&self) -> (r: Vec<bool>)
        ensures
            r@ == self@,
    {
        let mut r: Vec<bool> = Vec::new();
        let n = self.len();
        for i in 0..n
            invariant
                n == self@.len(),
                r@ == self@.take(i as int),
        {
            r.push(self.get(i));
            assert(r@ =~= self@.take(i + 1));
        }
        assert(self@.take(n as int) =~= self@);
        r
    }
}

/// Calls `BitView::view_bits` on a 32-bit word.
///
/// Trusted: the bits of the word, least significant first.
#[verifier::external_body]
pub(crate) fn u32_bits(x: u32) -> (r: Vec<bool>)
    ensures
        r@ == bits_view(x as nat, 32),
{
    x.view_bits::<Lsb0>().iter().by_vals().collect()
}

} // verus!
