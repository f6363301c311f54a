// SPDX-License-Identifier: LGPL-3.0

//! Fixed-size sets of bits, which label each node with the roots that depend
//! on it.

use fixedbitset::FixedBitSet;
use vstd::prelude::*;

verus! {

/// `fixedbitset::FixedBitSet`, a set of bits of a fixed length.
#[verifier::external_type_specification]
#[verifier::external_body]
pub struct ExFixedBitSet(FixedBitSet);

/// What a bit set holds: its bits by index.
pub uninterp spec fn bitset_view(b: &FixedBitSet) -> Seq<bool>;

/// `FixedBitSet::with_capacity` makes a set of `bits` bits, all of them
/// clear.
pub assume_specification[ FixedBitSet::with_capacity ](bits: usize) -> (res: FixedBitSet)
    ensures
        bitset_view(&res) == Seq::new(bits as nat, |i: int| false),
;

/// `FixedBitSet::insert` enables one bit. It panics when the bit is out of
/// bounds.
pub assume_specification[ FixedBitSet::insert ](b: &mut FixedBitSet, bit: usize)
    requires
        bit < bitset_view(old(b)).len(),
    ensures
        bitset_view(final(b)) == bitset_view(old(b)).update(bit as int, true),
;

/// `FixedBitSet`'s `==` holds of two bit sets when they have the same length
/// and the same bits.
#[verifier::external_body]
pub(crate) fn same_bits(a: &FixedBitSet, b: &FixedBitSet) -> (res: bool)
    ensures
        res == (bitset_view(a) == bitset_view(b)),
{
    a == b
}

} // verus!
