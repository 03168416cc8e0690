//! Trusted interface to the `bitvector` crate: a flat bit set used by the
//! packed board storage and by the search masks.

use vstd::prelude::*;

verus! {

#[verifier::external_type_specification]
#[verifier::external_body]
pub struct ExBitVector(bitvector::BitVector);

/// The set of bit indices that a `bitvector::BitVector` holds.
pub uninterp spec fn bits_of(b: bitvector::BitVector) -> Set<int>;

/// The number of bits the vector was allocated for (its `capacity`).
pub uninterp spec fn bit_capacity(b: bitvector::BitVector) -> int;

/// Relies on bitvector::BitVector::new: it allocates `bits/64` zeroed words,
/// rounded up, so the set starts empty with capacity at least `bits`. The
/// rounding adds 63 before dividing, so `bits` must leave room for that.
#[verifier::external_body]
pub(crate) fn bv_new(bits: usize) -> (r: bitvector::BitVector)
    requires
        bits <= usize::MAX - 63,
    ensures
        bits_of(r) == Set::<int>::empty(),
        bit_capacity(r) >= bits,
{
    bitvector::BitVector::new(bits)
}

/// Relies on bitvector::BitVector::contains: it tests the bit's word against a
/// mask (and returns false for an index at or above the capacity).
#[verifier::external_body]
pub(crate) fn bv_contains(b: &bitvector::BitVector, i: usize) -> (r: bool)
    requires
        i < bit_capacity(*b),
    ensures
        r == bits_of(*b).contains(i as int),
{
    b.contains(i)
}

/// Relies on bitvector::BitVector::insert: it ors the bit into its word; below
/// the capacity no reallocation happens, so the capacity stays as it was.
#[verifier::external_body]
pub(crate) fn bv_insert(b: &mut bitvector::BitVector, i: usize)
    requires
        i < bit_capacity(*old(b)),
    ensures
        bits_of(*final(b)) == bits_of(*old(b)).insert(i as int),
        bit_capacity(*final(b)) == bit_capacity(*old(b)),
{
    b.insert(i);
}

/// Relies on bitvector::BitVector::remove: it masks the bit out of its word;
/// it does no bound check, so an index above the capacity is excluded here.
#[verifier::external_body]
pub(crate) fn bv_remove(b: &mut bitvector::BitVector, i: usize)
    requires
        i < bit_capacity(*old(b)),
    ensures
        bits_of(*final(b)) == bits_of(*old(b)).remove(i as int),
        bit_capacity(*final(b)) == bit_capacity(*old(b)),
{
    b.remove(i);
}

/// Relies on the derived Clone of bitvector::BitVector: it copies the word
/// vector, so the copy holds the same bits and capacity and shares no storage.
#[verifier::external_body]
pub(crate) fn bv_clone(b: &bitvector::BitVector) -> (r: bitvector::BitVector)
    ensures
        bits_of(r) == bits_of(*b),
        bit_capacity(r) == bit_capacity(*b),
{
    b.clone()
}

} // verus!
