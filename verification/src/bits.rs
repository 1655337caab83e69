//! Bit sequences, stored in `bitvec::vec::BitVec`.
//!
//! The rest of the crate sees a bit-vector only through the spec function
//! `bits_of`, which names the sequence of bits it holds, and the trusted
//! wrappers below, one per `bitvec` function the crate relies on.

use vstd::prelude::*;

verus! {

/// An ordered sequence of bits, leftmost bit first; the carrier for both
/// extracted and canonical codes.
#[verifier::external_body]
pub struct Bits {
    inner: bitvec::vec::BitVec,
}

/// The bits held by a bit-vector, in order, leftmost first.
pub uninterp spec fn bits_of(b: Bits) -> Seq<bool>;

impl Bits {
    /// Relies on `BitVec::new`: a freshly created bit-vector holds no bits.
    #[verifier::external_body]
    pub fn new() -> (r: Bits)
        ensures
            bits_of(r) == Seq::<bool>::empty(),
    {
        Bits { inner: bitvec::vec::BitVec::new() }
    }

    /// Relies on `BitVec::push`: appends one bit at the back; panics only
    /// when the new length would exceed `BitSlice::MAX_BITS`, which is
    /// `usize::MAX >> 3`.
    #[verifier::external_body]
    pub fn push_bit(&mut self, bit: bool)
        requires
            bits_of(*old(self)).len() < usize::MAX / 8,
        ensures
            bits_of(*final(self)) == bits_of(*old(self)).push(bit),
    {
        self.inner.push(bit)
    }

    /// Relies on `BitSlice::len` (reached through `BitVec`'s deref): the
    /// number of bits held.
    #[verifier::external_body]
    pub fn len(&self) -> (n: usize)
        ensures
            n == bits_of(*self).len(),
    {
        self.inner.len()
    }

    /// Relies on `BitSlice`'s `Index<usize>` impl: yields the bit at the
    /// given position; panics when the position is out of range.
    #[verifier::external_body]
    pub fn bit_at(&self, i: usize) -> (bit: bool)
        requires
            i < bits_of(*self).len(),
        ensures
            bit == bits_of(*self)[i as int],
    {
        self.inner[i]
    }

    /// Relies on `BitVec`'s `Clone` impl: the copy holds the same bits.
    #[verifier::external_body]
    pub fn dup(&self) -> (r: Bits)
        ensures
            bits_of(r) == bits_of(*self),
    {
        Bits { inner: self.inner.clone() }
    }

    /// Builds a bit-vector holding exactly the given bits.
    pub fn from_bools(v: &Vec<bool>) -> (r: Bits)
        requires
            v@.len() <= usize::MAX / 8,
        ensures
            bits_of(r) == v@,
    {
        let mut r = Bits::new();
        let mut i: usize = 0;
        while i < v.len()
            invariant
                i <= v@.len(),
                v@.len() <= usize::MAX / 8,
                bits_of(r) == v@.take(i as int),
            decreases v@.len() - i,
        {
            r.push_bit(v[i]);
            proof {
                assert(bits_of(r) =~= v@.take(i as int + 1));
            }
            i = i + 1;
        }
        proof {
            assert(v@.take(v@.len() as int) =~= v@);
        }
        r
    }

    /// Reads a bit-vector out as a vector of booleans, in order.
    pub fn to_bools(&self) -> (r: Vec<bool>)
        ensures
            r@ == bits_of(*self),
    {
        let n = self.len();
        let mut r: Vec<bool> = Vec::new();
        let mut i: usize = 0;
        while i < n
            invariant
                i <= n,
                n == bits_of(*self).len(),
                r@ == bits_of(*self).take(i as int),
            decreases n - i,
        {
            r.push(self.bit_at(i));
            proof {
                assert(r@ =~= bits_of(*self).take(i as int + 1));
            }
            i = i + 1;
        }
        proof {
            assert(bits_of(*self).take(n as int) =~= bits_of(*self));
        }
        r
    }
}

} // verus!
