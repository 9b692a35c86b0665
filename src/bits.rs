//! Candidate digits are kept in `fixedbitset::FixedBitSet`s; this module
//! states what the library relies on from that type.
use fixedbitset::FixedBitSet;
use vstd::prelude::*;

verus! {

#[verifier::external_type_specification]
#[verifier::external_body]
pub struct ExFixedBitSet(FixedBitSet);

/// The bits that are on in a bit set.
pub uninterp spec fn bits_of(b: FixedBitSet) -> Set<usize>;

/// The number of bits a bit set holds (its `len`).
pub uninterp spec fn bits_len(b: FixedBitSet) -> nat;

/// Relies on `FixedBitSet::with_capacity`: `bits` bits, all clear.
pub assume_specification[ FixedBitSet::with_capacity ](bits: usize) -> (r: FixedBitSet)
    ensures
        bits_of(r) == Set::<usize>::empty(),
        bits_len(r) == bits,
;

/// Relies on `FixedBitSet::contains`: whether `bit` is on (false past the end).
pub assume_specification[ FixedBitSet::contains ](b: &FixedBitSet, bit: usize) -> (r: bool)
    ensures
        r == bits_of(*b).contains(bit),
;

/// Relies on `FixedBitSet::insert`: turns `bit` on; panics past the end.
pub assume_specification[ FixedBitSet::insert ](b: &mut FixedBitSet, bit: usize)
    requires
        bit < bits_len(*old(b)),
    ensures
        bits_of(*final(b)) == bits_of(*old(b)).insert(bit),
        bits_len(*final(b)) == bits_len(*old(b)),
;

/// Relies on `FixedBitSet::set`: sets `bit` to `enabled`; panics past the end.
pub assume_specification[ FixedBitSet::set ](b: &mut FixedBitSet, bit: usize, enabled: bool)
    requires
        bit < bits_len(*old(b)),
    ensures
        bits_of(*final(b)) == if enabled {
            bits_of(*old(b)).insert(bit)
        } else {
            bits_of(*old(b)).remove(bit)
        },
        bits_len(*final(b)) == bits_len(*old(b)),
;

/// Relies on `FixedBitSet::clear`: every bit off, length kept.
pub assume_specification[ FixedBitSet::clear ](b: &mut FixedBitSet)
    ensures
        bits_of(*final(b)) == Set::<usize>::empty(),
        bits_len(*final(b)) == bits_len(*old(b)),
;

/// Relies on `FixedBitSet::difference_with`: turns off each bit that is on
/// in `other`; the length is kept.
pub assume_specification[ FixedBitSet::difference_with ](b: &mut FixedBitSet, other: &FixedBitSet)
    ensures
        bits_of(*final(b)) == bits_of(*old(b)).difference(bits_of(*other)),
        bits_len(*final(b)) == bits_len(*old(b)),
;

/// Relies on `FixedBitSet::count_ones(..)`: the number of bits that are on.
#[verifier::external_body]
pub(crate) fn count_bits(b: &FixedBitSet) -> (r: usize)
    ensures
        r == bits_of(*b).len(),
{
    b.count_ones(..)
}

/// Relies on `FixedBitSet::ones`: the bits that are on, in ascending order.
#[verifier::external_body]
pub(crate) fn ones_of(b: &FixedBitSet) -> (r: Vec<usize>)
    ensures
        r@.to_set() == bits_of(*b),
        forall|i: int, j: int| 0 <= i < j < r@.len() ==> r@[i] < r@[j],
{
    b.ones().collect()
}

/// Relies on `FixedBitSet`'s `Clone`: same bits, same length.
#[verifier::external_body]
pub(crate) fn copy_bits(b: &FixedBitSet) -> (r: FixedBitSet)
    ensures
        bits_of(r) == bits_of(*b),
        bits_len(r) == bits_len(*b),
{
    b.clone()
}

} // verus!
