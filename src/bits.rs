//! Attribute subsets, held in a `bit_set::BitSet`.
use vstd::prelude::*;

verus! {

/// A set of attribute positions. Verus refuses to declare `bit_set::BitSet`
/// itself (its block type is bound by a trait of `bit_vec`), so the bit set is
/// held here, out of Verus's sight, and every operation states its effect on
/// `members`.
#[verifier::external_body]
pub struct AttrSet {
    bits: bit_set::BitSet,
}

/// The positions held in an attribute set.
pub uninterp spec fn members(s: AttrSet) -> Set<usize>;

impl AttrSet {
    /// Relies on `BitSet::new`: a new set is empty.
    #[verifier::external_body]
    pub(crate) fn new() -> (r: AttrSet)
        ensures
            members(r) == Set::<usize>::empty(),
    {
        AttrSet { bits: bit_set::BitSet::new() }
    }

    /// Relies on `BitSet::clone`: the copy holds the same members.
    #[verifier::external_body]
    pub(crate) fn duplicate(&self) -> (r: AttrSet)
        ensures
            members(r) == members(*self),
    {
        AttrSet { bits: self.bits.clone() }
    }

    /// Relies on `BitSet::insert`, which grows the bit vector to `value + 1` bits.
    #[verifier::external_body]
    pub(crate) fn insert(&mut self, value: usize)
        requires
            value < usize::MAX,
        ensures
            members(*final(self)) == members(*old(self)).insert(value),
    {
        self.bits.insert(value);
    }

    /// Relies on `BitSet::remove`.
    #[verifier::external_body]
    pub(crate) fn remove(&mut self, value: usize)
        ensures
            members(*final(self)) == members(*old(self)).remove(value),
    {
        self.bits.remove(value);
    }

    /// Relies on `BitSet::contains`.
    #[verifier::external_body]
    pub(crate) fn contains(&self, value: usize) -> (r: bool)
        ensures
            r == members(*self).contains(value),
    {
        self.bits.contains(value)
    }

    /// Relies on `BitSet::is_empty`: no bit is set.
    #[verifier::external_body]
    pub(crate) fn is_empty(&self) -> (r: bool)
        ensures
            r == (members(*self) == Set::<usize>::empty()),
    {
        self.bits.is_empty()
    }

    /// Relies on `BitSet::intersect_with`.
    #[verifier::external_body]
    pub(crate) fn intersect_with(&mut self, other: &AttrSet)
        ensures
            members(*final(self)) == members(*old(self)).intersect(members(*other)),
    {
        self.bits.intersect_with(&other.bits);
    }

    /// Relies on `BitSet::union_with`.
    #[verifier::external_body]
    pub(crate) fn union_with(&mut self, other: &AttrSet)
        ensures
            members(*final(self)) == members(*old(self)).union(members(*other)),
    {
        self.bits.union_with(&other.bits);
    }

    /// Relies on `BitSet::difference_with`.
    #[verifier::external_body]
    pub(crate) fn difference_with(&mut self, other: &AttrSet)
        ensures
            members(*final(self)) == members(*old(self)).difference(members(*other)),
    {
        self.bits.difference_with(&other.bits);
    }

    /// Relies on `BitSet::eq`, which compares the members in order.
    #[verifier::external_body]
    pub(crate) fn same_members(&self, other: &AttrSet) -> (r: bool)
        ensures
            r == (members(*self) == members(*other)),
    {
        self.bits == other.bits
    }

    /// Relies on `BitSet::iter`: each member once, in increasing order.
    #[verifier::external_body]
    pub(crate) fn to_vec(&self) -> (r: Vec<usize>)
        ensures
            r@.to_set() == members(*self),
            forall|i: int, j: int| 0 <= i < j < r@.len() ==> r@[i] < r@[j],
    {
        self.bits.iter().collect()
    }
}

} // verus!
