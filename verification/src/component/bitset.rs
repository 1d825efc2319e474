//! Trusted declarations for the dense bitset that records which slots of a storage are occupied.
use vstd::prelude::*;
use dense_bitset::BitSet;

verus! {

/// `dense_bitset::BitSet`, opaque to Verus.
#[verifier::external_type_specification]
#[verifier::external_body]
pub struct ExBitSet(dense_bitset::BitSet);

/// The indices whose entry is `true` in a `BitSet`.
pub uninterp spec fn bitset_contents(s: BitSet) -> Set<usize>;

/// Calls `BitSet::new`, which builds a set with no entry set to `true`.
#[verifier::external_body]
pub(crate) fn bitset_new() -> (s: BitSet)
    ensures
        bitset_contents(s) == Set::<usize>::empty(),
{
    BitSet::new()
}

/// Calls `BitSet::get`, which returns the value of the entry at `idx` (`false` beyond the last
/// stored frame).
#[verifier::external_body]
pub(crate) fn bitset_get(s: &BitSet, idx: usize) -> (b: bool)
    ensures
        b == bitset_contents(*s).contains(idx),
{
    s.get(idx)
}

/// Calls `BitSet::insert`, which sets the entry at `idx` to `true` and leaves all others.
#[verifier::external_body]
pub(crate) fn bitset_insert(s: &mut BitSet, idx: usize)
    ensures
        bitset_contents(*final(s)) == bitset_contents(*old(s)).insert(idx),
{
    s.insert(idx)
}

/// Calls `BitSet::remove`, which sets the entry at `idx` to `false` and leaves all others.
#[verifier::external_body]
pub(crate) fn bitset_remove(s: &mut BitSet, idx: usize)
    ensures
        bitset_contents(*final(s)) == bitset_contents(*old(s)).remove(idx),
{
    s.remove(idx)
}

} // verus!
