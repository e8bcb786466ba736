//! Sets of positions.

use vstd::prelude::*;

verus! {

/// A set of positions below a fixed bound, kept as one flag for each
/// position below the bound.
#[derive(Debug, Clone, PartialEq, Eq)]
pub struct PositionSet {
    pub bits: Vec<bool>,
}

impl View for PositionSet {
    type V = Set<int>;

    open spec fn view(&self) -> Set<int> {
        Set::new(|p: int| 0 <= p < self.bits@.len() && self.bits@[p])
    }
}

impl PositionSet {
    /// The bound below which the positions of this set lie.
    pub open spec fn bound(&self) -> int {
        self.bits@.len() as int
    }

    /// The set without any position, for positions below `bound`.
    pub fn empty(bound: usize) -> (s: PositionSet)
        ensures
            s@ == Set::<int>::empty(),
            s.bound() == bound,
    {
        let mut bits: Vec<bool> = Vec::new();
        let mut i: usize = 0;
        while i < bound
            invariant
                i <= bound,
                bits@.len() == i,
                forall|k: int| 0 <= k < i ==> !bits@[k],
            decreases bound - i,
        {
            bits.push(false);
            i += 1;
        }
        let s = PositionSet { bits };
        assert(s@ =~= Set::<int>::empty());
        s
    }

    /// Whether the position `p` is in the set.
    pub fn contains(&self, p: usize) -> (r: bool)
        ensures
            r == self@.contains(p as int),
    {
        p < self.bits.len() && self.bits[p]
    }

    /// Puts the position `p` into the set.
    pub fn insert(&mut self, p: usize)
        requires
            p < old(self).bound(),
        ensures
            final(self)@ == old(self)@.insert(p as int),
            final(self).bound() == old(self).bound(),
    {
        self.bits.set(p, true);
        assert(self@ =~= old(self)@.insert(p as int));
    }

    /// Puts every position of `other` into the set.
    pub fn union_with(&mut self, other: &PositionSet)
        requires
            old(self).bound() == other.bound(),
        ensures
            final(self)@ == old(self)@.union(other@),
            final(self).bound() == old(self).bound(),
    {
        let mut i: usize = 0;
        while i < self.bits.len()
            invariant
                i <= self.bits@.len(),
                self.bits@.len() == old(self).bits@.len() == other.bits@.len(),
                forall|k: int|
                    0 <= k < i ==> #[trigger] self.bits@[k] == (old(self).bits@[k] || other.bits@[k]),
                forall|k: int|
                    i <= k < self.bits@.len() ==> #[trigger] self.bits@[k] == old(self).bits@[k],
            decreases self.bits@.len() - i,
        {
            if other.bits[i] {
                self.bits.set(i, true);
            }
            i += 1;
        }
        assert(self@ =~= old(self)@.union(other@));
    }

    /// Whether the set holds no position.
    pub fn is_empty(&self) -> (r: bool)
        ensures
            r == (self@ == Set::<int>::empty()),
    {
        let mut i: usize = 0;
        while i < self.bits.len()
            invariant
                i <= self.bits@.len(),
                forall|k: int| 0 <= k < i ==> !self.bits@[k],
            decreases self.bits@.len() - i,
        {
            if self.bits[i] {
                assert(self@.contains(i as int));
                return false;
            }
            i += 1;
        }
        assert(self@ =~= Set::<int>::empty());
        true
    }

    /// Whether the two sets hold the same positions.
    pub fn same_as(&self, other: &PositionSet) -> (r: bool)
        requires
            self.bound() == other.bound(),
        ensures
            r == (self@ == other@),
    {
        let mut i: usize = 0;
        while i < self.bits.len()
            invariant
                i <= self.bits@.len(),
                self.bits@.len() == other.bits@.len(),
                forall|k: int| 0 <= k < i ==> self.bits@[k] == other.bits@[k],
            decreases self.bits@.len() - i,
        {
            if self.bits[i] != other.bits[i] {
                assert(self@.contains(i as int) != other@.contains(i as int));
                return false;
            }
            i += 1;
        }
        assert(self@ =~= other@);
        true
    }

    /// A copy of the set.
    pub fn duplicate(&self) -> (s: PositionSet)
        ensures
            s@ == self@,
            s.bound() == self.bound(),
            s.bits@ == self.bits@,
    {
        let mut bits: Vec<bool> = Vec::new();
        let mut i: usize = 0;
        while i < self.bits.len()
            invariant
                i <= self.bits@.len(),
                bits@ == self.bits@.take(i as int),
            decreases self.bits@.len() - i,
        {
            bits.push(self.bits[i]);
            i += 1;
        }
        assert(bits@ =~= self.bits@);
        PositionSet { bits }
    }
}

} // verus!
