//! A max-priority queue of visit candidates, kept as a binary heap in a vector.

use vstd::multiset::*;
use vstd::prelude::*;
use vstd::seq_lib::*;

use crate::voxel_priority::VoxelPriority;

verus! {

/// Every entry but the root ranks at most as high as its parent.
pub open spec fn heap_ordered(s: Seq<VoxelPriority>) -> bool {
    forall|i: int| 1 <= i < s.len() ==> (#[trigger] s[i]).at_most(s[(i - 1) / 2])
}

/// Heap order everywhere except between `hole` and its parent, and the
/// children of `hole` already rank at most as high as its parent.
spec fn ordered_above(s: Seq<VoxelPriority>, hole: int) -> bool {
    &&& forall|i: int| 1 <= i < s.len() && i != hole ==> (#[trigger] s[i]).at_most(s[(i - 1) / 2])
    &&& forall|i: int|
        1 <= i < s.len() && (i - 1) / 2 == hole && hole >= 1 ==> (#[trigger] s[i]).at_most(
            s[(hole - 1) / 2],
        )
}

/// Heap order everywhere except between `hole` and its children, and the
/// children of `hole` already rank at most as high as its parent.
spec fn ordered_below(s: Seq<VoxelPriority>, hole: int) -> bool {
    &&& forall|i: int|
        1 <= i < s.len() && (i - 1) / 2 != hole ==> (#[trigger] s[i]).at_most(s[(i - 1) / 2])
    &&& forall|i: int|
        1 <= i < s.len() && (i - 1) / 2 == hole && hole >= 1 ==> (#[trigger] s[i]).at_most(
            s[(hole - 1) / 2],
        )
}

/// In a heap-ordered sequence no entry ranks above the root.
proof fn lemma_root_is_greatest(s: Seq<VoxelPriority>, i: int)
    requires
        heap_ordered(s),
        0 <= i < s.len(),
    ensures
        s[i].at_most(s[0]),
    decreases i,
{
    if i > 0 {
        lemma_root_is_greatest(s, (i - 1) / 2);
    }
}

/// Exchanging two entries keeps the multiset of entries.
proof fn lemma_exchange_keeps_entries(s: Seq<VoxelPriority>, i: int, j: int)
    requires
        0 <= i < s.len(),
        0 <= j < s.len(),
    ensures
        s.update(i, s[j]).update(j, s[i]).to_multiset() == s.to_multiset(),
{
    broadcast use group_to_multiset_ensures;

    to_multiset_update(s, i, s[j]);
    to_multiset_update(s.update(i, s[j]), j, s[i]);
    assert(s.to_multiset().count(s[i]) > 0);
    assert(s.to_multiset().count(s[j]) > 0);
    assert(s.update(i, s[j]).update(j, s[i]).to_multiset() =~= s.to_multiset());
}

/// A max-priority queue of candidates. Its view is the multiset of the
/// candidates it holds; `pop` hands out the highest-ranked one.
pub struct VoxelQueue {
    heap: Vec<VoxelPriority>,
}

impl View for VoxelQueue {
    type V = Multiset<VoxelPriority>;

    closed spec fn view(&self) -> Multiset<VoxelPriority> {
        self.heap@.to_multiset()
    }
}

impl VoxelQueue {
    /// The representation invariant: the vector is heap-ordered.
    pub closed spec fn wf(&self) -> bool {
        heap_ordered(self.heap@)
    }

    /// An empty queue.
    pub fn new() -> (q: VoxelQueue)
        ensures
            q.wf(),
            q@ == Multiset::<VoxelPriority>::empty(),
    {
        let q = VoxelQueue { heap: Vec::new() };
        proof {
            broadcast use group_to_multiset_ensures;

            assert(q.heap@ =~= Seq::<VoxelPriority>::empty());
            assert(q@.len() == 0);
            assert(q@ =~= Multiset::<VoxelPriority>::empty());
        }
        q
    }

    /// The number of candidates held, counting repetitions.
    pub fn len(&self) -> (n: usize)
        ensures
            n == self@.len(),
    {
        proof {
            broadcast use group_to_multiset_ensures;

        }
        self.heap.len()
    }

    /// Whether the queue holds no candidate.
    pub fn is_empty(&self) -> (r: bool)
        ensures
            r == (self@.len() == 0),
    {
        proof {
            broadcast use group_to_multiset_ensures;

        }
        self.heap.len() == 0
    }

    /// Adds one candidate.
    pub fn push(&mut self, item: VoxelPriority)
        requires
            old(self).wf(),
        ensures
            final(self).wf(),
            final(self)@ == old(self)@.insert(item),
    {
        proof {
            broadcast use group_to_multiset_ensures;

        }
        self.heap.push(item);
        let last: usize = self.heap.len() - 1;
        sift_up(&mut self.heap, last);
    }

    /// Removes and returns the highest-ranked candidate, or `None` when the
    /// queue is empty.
    pub fn pop(&mut self) -> (r: Option<VoxelPriority>)
        requires
            old(self).wf(),
        ensures
            final(self).wf(),
            match r {
                None => old(self)@.len() == 0 && final(self)@ == old(self)@,
                Some(top) => {
                    &&& old(self)@.count(top) > 0
                    &&& final(self)@ == old(self)@.remove(top)
                    &&& forall|x: VoxelPriority| old(self)@.count(x) > 0 ==> x.at_most(top)
                },
            },
    {
        proof {
            broadcast use group_to_multiset_ensures;

        }
        let n: usize = self.heap.len();
        if n == 0 {
            return None;
        }
        let ghost before = self.heap@;
        let top = self.heap[0];
        let last = self.heap[n - 1];
        self.heap[0] = last;
        self.heap[n - 1] = top;
        proof {
            lemma_exchange_keeps_entries(before, 0, n - 1);
            assert(self.heap@ =~= before.update(0, before[n - 1]).update(n - 1, before[0]));
        }
        let ghost exchanged = self.heap@;
        let taken = self.heap.pop();
        proof {
            assert(self.heap@ =~= exchanged.remove(n - 1));
            to_multiset_remove(exchanged, n - 1);
            assert forall|x: VoxelPriority| before.to_multiset().count(x) > 0 implies x.at_most(
                top,
            ) by {
                assert(before.contains(x));
                let k = choose|k: int| 0 <= k < before.len() && before[k] == x;
                lemma_root_is_greatest(before, k);
            }
            assert(ordered_below(self.heap@, 0)) by {
                assert forall|i: int|
                    1 <= i < self.heap@.len() && (i - 1) / 2 != 0 implies (
                #[trigger] self.heap@[i]).at_most(self.heap@[(i - 1) / 2]) by {
                    assert(self.heap@[i] == before[i]);
                    assert(before[i].at_most(before[(i - 1) / 2]));
                }
            }
        }
        if self.heap.len() > 0 {
            sift_down(&mut self.heap, 0);
        }
        Some(top)
    }

    /// Moves every candidate of `other` into this queue.
    pub fn absorb(&mut self, other: VoxelQueue)
        requires
            old(self).wf(),
        ensures
            final(self).wf(),
            final(self)@ == old(self)@.add(other@),
    {
        let mut i: usize = 0;
        proof {
            broadcast use group_to_multiset_ensures;

            assert(other.heap@.take(0) =~= Seq::<VoxelPriority>::empty());
            assert(self@ =~= self@.add(other.heap@.take(0).to_multiset()));
        }
        while i < other.heap.len()
            invariant
                0 <= i <= other.heap.len(),
                self.wf(),
                self@ == old(self)@.add(other.heap@.take(i as int).to_multiset()),
            decreases other.heap.len() - i,
        {
            proof {
                broadcast use group_to_multiset_ensures;

                assert(other.heap@.take(i + 1) =~= other.heap@.take(i as int).push(
                    other.heap@[i as int],
                ));
                assert(old(self)@.add(other.heap@.take(i + 1).to_multiset()) =~= old(self)@.add(
                    other.heap@.take(i as int).to_multiset(),
                ).insert(other.heap@[i as int]));
            }
            self.push(other.heap[i]);
            i += 1;
        }
        proof {
            assert(other.heap@.take(i as int) =~= other.heap@);
        }
    }
}

/// Moves the entry at `start` up until its parent ranks at least as high.
fn sift_up(heap: &mut Vec<VoxelPriority>, start: usize)
    requires
        start < old(heap).len(),
        ordered_above(old(heap)@, start as int),
    ensures
        heap_ordered(final(heap)@),
        final(heap)@.to_multiset() == old(heap)@.to_multiset(),
        final(heap).len() == old(heap).len(),
{
    let mut i: usize = start;
    while i > 0
        invariant
            i < heap.len(),
            heap.len() == old(heap).len(),
            ordered_above(heap@, i as int),
            heap@.to_multiset() == old(heap)@.to_multiset(),
        ensures
            heap_ordered(heap@),
            heap@.to_multiset() == old(heap)@.to_multiset(),
            heap.len() == old(heap).len(),
        decreases i,
    {
        let p: usize = (i - 1) / 2;
        let child = heap[i];
        let parent = heap[p];
        if parent.ranks_below(&child) {
            let ghost before = heap@;
            heap[i] = parent;
            heap[p] = child;
            proof {
                lemma_exchange_keeps_entries(before, i as int, p as int);
                assert(heap@ =~= before.update(i as int, before[p as int]).update(
                    p as int,
                    before[i as int],
                ));
                assert(ordered_above(heap@, p as int)) by {
                    assert forall|k: int| 1 <= k < heap@.len() && k != p implies (
                    #[trigger] heap@[k]).at_most(heap@[(k - 1) / 2]) by {
                        if k == i {
                        } else if (k - 1) / 2 == i {
                            assert(before[k].at_most(before[(i - 1) / 2]));
                        } else if (k - 1) / 2 == p {
                            assert(before[k].at_most(before[p as int]));
                        } else {
                            assert(before[k].at_most(before[(k - 1) / 2]));
                        }
                    }
                    assert forall|k: int|
                        1 <= k < heap@.len() && (k - 1) / 2 == p && p >= 1 implies (
                    #[trigger] heap@[k]).at_most(heap@[(p - 1) / 2]) by {
                        assert(before[p as int].at_most(before[(p - 1) / 2]));
                        if k == i {
                        } else {
                            assert(before[k].at_most(before[p as int]));
                        }
                    }
                }
            }
            i = p;
        } else {
            break ;
        }
    }
}

/// Moves the entry at `start` down until both children rank at most as high.
fn sift_down(heap: &mut Vec<VoxelPriority>, start: usize)
    requires
        start < old(heap).len(),
        ordered_below(old(heap)@, start as int),
    ensures
        heap_ordered(final(heap)@),
        final(heap)@.to_multiset() == old(heap)@.to_multiset(),
        final(heap).len() == old(heap).len(),
{
    let n: usize = heap.len();
    let mut i: usize = start;
    loop
        invariant
            i < n,
            n == heap.len(),
            heap.len() == old(heap).len(),
            ordered_below(heap@, i as int),
            heap@.to_multiset() == old(heap)@.to_multiset(),
        ensures
            heap_ordered(heap@),
            heap@.to_multiset() == old(heap)@.to_multiset(),
            heap.len() == old(heap).len(),
        decreases n - i,
    {
        if n < 2 || i > (n - 2) / 2 {
            break ;
        }
        let left: usize = 2 * i + 1;
        let right: usize = left + 1;
        let mut best: usize = left;
        if right < n && heap[left].ranks_below(&heap[right]) {
            best = right;
        }
        let here = heap[i];
        let under = heap[best];
        if here.ranks_below(&under) {
            let ghost before = heap@;
            heap[i] = under;
            heap[best] = here;
            proof {
                lemma_exchange_keeps_entries(before, i as int, best as int);
                assert(heap@ =~= before.update(i as int, before[best as int]).update(
                    best as int,
                    before[i as int],
                ));
                assert(ordered_below(heap@, best as int)) by {
                    assert forall|k: int|
                        1 <= k < heap@.len() && (k - 1) / 2 != best implies (
                    #[trigger] heap@[k]).at_most(heap@[(k - 1) / 2]) by {
                        if k == i {
                            assert(before[best as int].at_most(before[(i - 1) / 2]));
                        } else if k == best {
                        } else if (k - 1) / 2 == i {
                            assert(k == left || k == right);
                        } else {
                            assert(before[k].at_most(before[(k - 1) / 2]));
                        }
                    }
                    assert forall|k: int|
                        1 <= k < heap@.len() && (k - 1) / 2 == best && best >= 1 implies (
                    #[trigger] heap@[k]).at_most(heap@[(best - 1) / 2]) by {
                        assert(before[k].at_most(before[best as int]));
                    }
                }
            }
            i = best;
        } else {
            break ;
        }
    }
}

} // verus!
