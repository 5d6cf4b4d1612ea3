//! Trusted boundary around the `bitvec` crate.
//!
//! The board's obstacle bitmap is a `bitvec::vec::BitVec`.  Verus does
//! not read that crate, so the bit-vector is held in an opaque struct,
//! its contents are named by the uninterpreted `bits_of`, and each
//! operation the board needs is wrapped in a function whose contract
//! states what the crate's documentation promises of it.

use vstd::prelude::*;

verus! {

/// An obstacle bitmap, backed by `bitvec::vec::BitVec`.
#[verifier::external_body]
pub struct ObstacleBits {
    bits: bitvec::vec::BitVec<usize, bitvec::order::Lsb0>,
}

/// The sequence of bits the bitmap holds, in semantic index order.
pub uninterp spec fn bits_of(v: ObstacleBits) -> Seq<bool>;

impl ObstacleBits {
    /// Relies on `BitVec::repeat`: a new bit-vector of `len` copies of
    /// `bit`.
    #[verifier::external_body]
    pub(crate) fn repeat(bit: bool, len: usize) -> (v: ObstacleBits)
        ensures
            bits_of(v).len() == len,
            forall|i: int| 0 <= i < len ==> bits_of(v)[i] == bit,
    {
        ObstacleBits { bits: bitvec::vec::BitVec::repeat(bit, len) }
    }

    /// Relies on `BitSlice`'s `Index<usize>` impl: looks up the bit at
    /// a semantic index; panics when the index is out of bounds.
    #[verifier::external_body]
    pub(crate) fn read(&self, i: usize) -> (b: bool)
        requires
            i < bits_of(*self).len(),
        ensures
            b == bits_of(*self)[i as int],
    {
        self.bits[i]
    }

    /// Relies on `BitSlice::set`: writes one bit at a semantic index;
    /// panics when the index is out of bounds.
    #[verifier::external_body]
    pub(crate) fn write(&mut self, i: usize, bit: bool)
        requires
            i < bits_of(*old(self)).len(),
        ensures
            bits_of(*final(self)) == bits_of(*old(self)).update(i as int, bit),
    {
        self.bits.set(i, bit)
    }

    /// Relies on `BitVec`'s `Clone` impl: copies the bit contents into
    /// an independent new allocation.
    #[verifier::external_body]
    pub(crate) fn duplicate(&self) -> (w: ObstacleBits)
        ensures
            bits_of(w) == bits_of(*self),
    {
        ObstacleBits { bits: self.bits.clone() }
    }
}

} // verus!
