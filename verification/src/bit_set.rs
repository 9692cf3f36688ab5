//! A set of small numbers, kept in a `bitmaps::Bitmap`.
use bitmaps::Bitmap;
use vstd::prelude::*;

verus! {

/// A set of numbers below 128: the registers drawn on a manual, the keys held
/// on it, or the manuals that hold one pipe open.
#[verifier::external_body]
pub struct BitSet {
    bits: Bitmap<128>,
}

/// The indices of the bits that are `true` in the bitmap of `set`.
pub uninterp spec fn members(set: BitSet) -> Set<int>;

impl View for BitSet {
    type V = Set<int>;

    open spec fn view(&self) -> Set<int> {
        members(*self)
    }
}

impl BitSet {
    /// `bitmaps::Bitmap::from_value`: the bits of the new bitmap are those of the
    /// value, and zero has none that is `true`.
    #[verifier::external_body]
    pub(crate) fn new() -> (set: BitSet)
        ensures
            members(set) == Set::<int>::empty(),
    {
        BitSet { bits: Bitmap::from_value(0) }
    }

    /// `bitmaps::Bitmap::get`: whether the bit at `index` is `true`. The bitmap
    /// asserts that the index is below its size.
    #[verifier::external_body]
    pub(crate) fn get(&self, index: usize) -> (present: bool)
        requires
            index < 128,
        ensures
            present == members(*self).contains(index as int),
    {
        self.bits.get(index)
    }

    /// `bitmaps::Bitmap::set`: makes the bit at `index` equal to `value` and
    /// leaves the other bits alone. The bitmap asserts that the index is below
    /// its size.
    #[verifier::external_body]
    pub(crate) fn set(&mut self, index: usize, value: bool)
        requires
            index < 128,
        ensures
            members(*final(self)) == if value {
                members(*old(self)).insert(index as int)
            } else {
                members(*old(self)).remove(index as int)
            },
    {
        self.bits.set(index, value);
    }

    /// `bitmaps::Bitmap::is_empty`: whether every bit is `false`.
    #[verifier::external_body]
    pub(crate) fn is_empty(&self) -> (empty: bool)
        ensures
            empty == (members(*self) == Set::<int>::empty()),
    {
        self.bits.is_empty()
    }
}

} // verus!
