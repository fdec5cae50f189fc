use vstd::prelude::*;

use bitvec::vec::BitVec;

verus! {

/// A bit-vector of the `bitvec` crate (`BitVec<usize, Lsb0>`), one bit per entry.
/// Its fields are hidden from the proofs; what it holds is given by [`bits`].
#[verifier::external_body]
pub struct BitStorage {
    vec: BitVec,
}

/// The bits held by a bit-vector, in index order.
pub uninterp spec fn bits(v: BitStorage) -> Seq<bool>;

/// The largest number of bits a bit-vector can hold (`BitSlice::MAX_BITS`, which is `usize::MAX >> 3`).
pub open spec fn max_bits() -> int {
    usize::MAX as int / 8
}

/// Calls `BitVec::new`, which creates a bit-vector holding no bits.
#[verifier::external_body]
pub(crate) fn bitvec_new() -> (v: BitStorage)
    ensures
        bits(v) == Seq::<bool>::empty(),
{
    BitStorage { vec: BitVec::new() }
}

/// Calls `BitVec::len`, which returns the number of bits held.
#[verifier::external_body]
pub(crate) fn bitvec_len(v: &BitStorage) -> (len: usize)
    ensures
        len == bits(*v).len(),
{
    v.vec.len()
}

/// Indexes a bit-vector (`Index<usize>` of `BitSlice`), which returns the bit at `index`
/// and panics when `index` is out of bounds.
#[verifier::external_body]
pub(crate) fn bitvec_index(v: &BitStorage, index: usize) -> (bit: &bool)
    requires
        index < bits(*v).len(),
    ensures
        *bit == bits(*v)[index as int],
{
    &v.vec[index]
}

/// Calls `BitSlice::set`, which writes `value` into the bit at `index`
/// and panics when `index` is out of bounds.
#[verifier::external_body]
pub(crate) fn bitvec_set(v: &mut BitStorage, index: usize, value: bool)
    requires
        index < bits(*old(v)).len(),
    ensures
        bits(*final(v)) == bits(*old(v)).update(index as int, value),
{
    v.vec.set(index, value)
}

/// Calls `BitVec::push`, which appends one bit and panics when the bit-vector
/// would exceed its maximum length.
#[verifier::external_body]
pub(crate) fn bitvec_push(v: &mut BitStorage, value: bool)
    requires
        bits(*old(v)).len() + 1 <= max_bits(),
    ensures
        bits(*final(v)) == bits(*old(v)).push(value),
{
    v.vec.push(value)
}

/// Calls `BitVec::repeat`, which creates a bit-vector of `len` copies of `value`; it panics
/// when `len` exceeds the maximum length.
#[verifier::external_body]
pub(crate) fn bitvec_repeat(value: bool, len: usize) -> (v: BitStorage)
    requires
        len <= max_bits(),
    ensures
        bits(v) == Seq::new(len as nat, |i: int| value),
{
    BitStorage { vec: BitVec::repeat(value, len) }
}

} // verus!
