//! Bit sets, kept in `bitvec`'s `BitVec`.
//!
//! Everything in this file is believed, not proved: it states what the
//! `bitvec` crate does.

use vstd::prelude::*;
use bitvec::order::Lsb0;
use bitvec::vec::BitVec;

verus! {

/// A fixed-length sequence of bits. The verifier sees only `bits_of`.
#[verifier::external_body]
#[derive(Debug, PartialEq, Eq)]
pub struct Bits {
    inner: BitVec<usize, Lsb0>,
}

/// The bits that a `Bits` holds, first to last.
pub uninterp spec fn bits_of(b: Bits) -> Seq<bool>;

/// `BitVec::repeat`: a vector of `len` bits, each equal to `bit`. The crate
/// panics above its largest length, an eighth of the address space, which
/// `requires` leaves out.
#[verifier::external_body]
pub(crate) fn bits_repeat(bit: bool, len: usize) -> (b: Bits)
    requires
        len <= usize::MAX / 8,
    ensures
        bits_of(b) == Seq::new(len as nat, |i: int| bit),
{
    Bits { inner: BitVec::repeat(bit, len) }
}

/// Indexing a `BitVec` by `usize`: the bit at `index`. The crate panics when
/// `index` is not below the length.
#[verifier::external_body]
pub(crate) fn bits_get(b: &Bits, index: usize) -> (bit: bool)
    requires
        index < bits_of(*b).len(),
    ensures
        bit == bits_of(*b)[index as int],
{
    b.inner[index]
}

/// `BitSlice::set`, reached through the vector: writes `value` at `index`
/// and leaves every other bit and the length alone. The crate panics when
/// `index` is not below the length.
#[verifier::external_body]
pub(crate) fn bits_set(b: &mut Bits, index: usize, value: bool)
    requires
        index < bits_of(*old(b)).len(),
    ensures
        bits_of(*final(b)) == bits_of(*old(b)).update(index as int, value),
{
    b.inner.set(index, value);
}

/// `Clone` for `BitVec`: a vector that holds the same bits.
#[verifier::external_body]
pub(crate) fn bits_clone(b: &Bits) -> (copy: Bits)
    ensures
        bits_of(copy) == bits_of(*b),
{
    Bits { inner: b.inner.clone() }
}

} // verus!
