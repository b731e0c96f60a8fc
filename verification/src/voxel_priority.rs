//! The ordering key of the traversal: a node's value with its index as tie-break.

use std::cmp::Ordering;
use vstd::prelude::*;
use vstd::std_specs::cmp::PartialOrdSpecImpl;

verus! {

/// A candidate for the next visit: a node index with the value it had when it
/// was queued. Candidates are totally ordered by value, then by index.
#[derive(Debug, Clone, Copy, PartialEq, Eq, Structural, Ord)]
pub struct VoxelPriority {
    pub value: u64,
    pub index: usize,
}

impl VoxelPriority {
    /// `self` ranks strictly below `other`.
    pub open spec fn below(self, other: VoxelPriority) -> bool {
        self.value < other.value || (self.value == other.value && self.index < other.index)
    }

    /// `self` ranks below `other` or is the same candidate.
    pub open spec fn at_most(self, other: VoxelPriority) -> bool {
        self.below(other) || self == other
    }

    /// Whether `self` ranks strictly below `other`.
    pub fn ranks_below(&self, other: &VoxelPriority) -> (r: bool)
        ensures
            r == self.below(*other),
    {
        self.value < other.value || (self.value == other.value && self.index < other.index)
    }
}

impl PartialOrdSpecImpl for VoxelPriority {
    open spec fn obeys_partial_cmp_spec() -> bool {
        true
    }

    open spec fn partial_cmp_spec(&self, other: &VoxelPriority) -> Option<Ordering> {
        if self.below(*other) {
            Some(Ordering::Less)
        } else if other.below(*self) {
            Some(Ordering::Greater)
        } else {
            Some(Ordering::Equal)
        }
    }
}

impl PartialOrd for VoxelPriority {
    fn partial_cmp(&self, other: &VoxelPriority) -> (r: Option<Ordering>) {
        if self.value < other.value {
            Some(Ordering::Less)
        } else if self.value > other.value {
            Some(Ordering::Greater)
        } else if self.index < other.index {
            Some(Ordering::Less)
        } else if self.index > other.index {
            Some(Ordering::Greater)
        } else {
            Some(Ordering::Equal)
        }
    }
}

/// The ranking is a strict total order: irreflexive, transitive, and any two
/// distinct candidates are ranked one way or the other.
pub proof fn lemma_ranking_total(a: VoxelPriority, b: VoxelPriority, c: VoxelPriority)
    ensures
        !a.below(a),
        a.below(b) && b.below(c) ==> a.below(c),
        a.below(b) || b.below(a) || a == b,
        !(a.below(b) && b.below(a)),
{
}

} // verus!
