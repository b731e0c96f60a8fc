//! The builder as a transition system on mathematical state: what one pop
//! of the active queue, or one join with a suspended branch, does.

use vstd::multiset::*;
use vstd::prelude::*;

use crate::tfce::ascent::{hill_top, max_voxel};
use crate::tfce::cluster::Fragment;
use crate::voxel::Voxel;
use crate::voxel_priority::VoxelPriority;

verus! {

/// A branch set aside while a separate, higher hill is explored.
pub ghost struct Suspended {
    /// The low-water mark that was in force when the branch was set aside.
    pub low_value: u64,
    /// The candidates the branch had not visited yet.
    pub queue: Multiset<VoxelPriority>,
    /// The fragment built so far.
    pub cluster: Fragment,
}

/// The state of the builder between two steps.
pub ghost struct Traversal {
    pub visited: Seq<bool>,
    pub queue: Multiset<VoxelPriority>,
    pub stack: Seq<Suspended>,
    pub current_value: u64,
    pub low_value: u64,
    pub current: Fragment,
}

/// Node `i` as a candidate: its value with its index.
pub open spec fn candidate(g: Seq<Voxel>, i: int) -> VoxelPriority {
    VoxelPriority { value: g[i].value, index: i as usize }
}

/// `e` is held by `q` and nothing in `q` ranks above it.
pub open spec fn is_top(q: Multiset<VoxelPriority>, e: VoxelPriority) -> bool {
    &&& q.count(e) > 0
    &&& forall|x: VoxelPriority| q.count(x) > 0 ==> x.at_most(e)
}

/// The highest-ranked candidate of a non-empty queue.
pub open spec fn top_of(q: Multiset<VoxelPriority>) -> VoxelPriority {
    choose|e: VoxelPriority| is_top(q, e)
}

/// One candidate for each entry of `links` that is not yet visited.
pub open spec fn unvisited_links(g: Seq<Voxel>, links: Seq<usize>, visited: Seq<bool>) -> Multiset<
    VoxelPriority,
>
    decreases links.len(),
{
    if links.len() == 0 {
        Multiset::empty()
    } else {
        let before = unvisited_links(g, links.drop_last(), visited);
        if visited[links.last() as int] {
            before
        } else {
            before.insert(candidate(g, links.last() as int))
        }
    }
}

/// The state before the first step: nothing visited, the first maximum of
/// the graph queued.
pub open spec fn start(g: Seq<Voxel>) -> Traversal {
    let m = max_voxel(g);
    Traversal {
        visited: Seq::new(g.len(), |i: int| false),
        queue: Multiset::singleton(candidate(g, m)),
        stack: Seq::empty(),
        current_value: g[m].value,
        low_value: 0,
        current: Fragment::empty(),
    }
}

/// The current fragment and the topmost suspended branch become the two
/// children of a new fragment. Its spine starts with the node at which the
/// branch was suspended; the two queues are united.
pub open spec fn merged(s: Traversal) -> Traversal {
    let h = s.stack.last();
    Traversal {
        visited: s.visited,
        queue: s.queue.add(h.queue),
        stack: s.stack.drop_last(),
        current_value: s.low_value,
        low_value: h.low_value,
        current: Fragment {
            spine: seq![h.cluster.spine.last()],
            size: s.current.size + h.cluster.size,
            first: Some(
                Box::new(
                    Fragment {
                        spine: h.cluster.spine.drop_last(),
                        size: (h.cluster.size - 1) as nat,
                        first: h.cluster.first,
                        second: h.cluster.second,
                    },
                ),
            ),
            second: Some(Box::new(s.current)),
        },
    }
}

/// The candidate `e` is visited: it extends the current spine, and its
/// unvisited neighbours are queued.
pub open spec fn descended(g: Seq<Voxel>, s: Traversal, e: VoxelPriority) -> Traversal {
    let visited = s.visited.update(e.index as int, true);
    Traversal {
        visited,
        queue: s.queue.remove(e).add(
            unvisited_links(g, g[e.index as int].voxel_links@, visited),
        ),
        stack: s.stack,
        current_value: e.value,
        low_value: s.low_value,
        current: Fragment {
            spine: s.current.spine.push(e.index),
            size: s.current.size + 1,
            first: s.current.first,
            second: s.current.second,
        },
    }
}

/// The candidate `e` lies on another hill: the current branch is suspended,
/// and the traversal goes on from the top of that hill.
pub open spec fn diverted(g: Seq<Voxel>, s: Traversal, e: VoxelPriority) -> Traversal {
    let m = hill_top(g, e.index as int);
    Traversal {
        visited: s.visited,
        queue: Multiset::singleton(candidate(g, m)),
        stack: s.stack.push(
            Suspended { low_value: s.low_value, queue: s.queue.remove(e), cluster: s.current },
        ),
        current_value: g[m].value,
        low_value: s.current_value,
        current: Fragment::empty(),
    }
}

/// A visited candidate is dropped from the queue.
pub open spec fn skipped(s: Traversal, e: VoxelPriority) -> Traversal {
    Traversal {
        visited: s.visited,
        queue: s.queue.remove(e),
        stack: s.stack,
        current_value: s.current_value,
        low_value: s.low_value,
        current: s.current,
    }
}

/// Nothing is left to do: the active queue and the stack are empty.
pub open spec fn finished(s: Traversal) -> bool {
    s.queue.len() == 0 && s.stack.len() == 0
}

/// One step of the builder. With a candidate at hand: drop it if visited;
/// join with the topmost suspended branch if the candidate lies below the
/// low-water mark; visit it if it does not exceed the current value;
/// otherwise divert to its hill. With an empty queue: join with the topmost
/// suspended branch.
pub open spec fn step(g: Seq<Voxel>, s: Traversal) -> Traversal {
    if s.queue.len() > 0 {
        let e = top_of(s.queue);
        if s.visited[e.index as int] {
            skipped(s, e)
        } else if e.value < s.low_value && s.stack.len() > 0 {
            merged(s)
        } else if e.value <= s.current_value {
            descended(g, s, e)
        } else {
            diverted(g, s, e)
        }
    } else if s.stack.len() > 0 {
        merged(s)
    } else {
        s
    }
}

/// The state after `n` steps.
pub open spec fn run(g: Seq<Voxel>, n: nat) -> Traversal
    decreases n,
{
    if n == 0 {
        start(g)
    } else {
        step(g, run(g, (n - 1) as nat))
    }
}

/// A non-empty queue has a highest-ranked candidate.
pub proof fn lemma_has_top(q: Multiset<VoxelPriority>)
    requires
        q.len() > 0,
    ensures
        is_top(q, top_of(q)),
    decreases q.len(),
{
    let x = q.choose();
    let rest = q.remove(x);
    if rest.len() == 0 {
        assert forall|y: VoxelPriority| q.count(y) > 0 implies y.at_most(x) by {
            if y != x {
                assert(rest.count(y) > 0);
            }
        }
        assert(is_top(q, x));
    } else {
        lemma_has_top(rest);
        let t = top_of(rest);
        if t.below(x) {
            assert forall|y: VoxelPriority| q.count(y) > 0 implies y.at_most(x) by {
                if y != x {
                    assert(rest.count(y) > 0);
                    assert(y.at_most(t));
                }
            }
            assert(is_top(q, x));
        } else {
            assert forall|y: VoxelPriority| q.count(y) > 0 implies y.at_most(t) by {
                if y != x {
                    assert(rest.count(y) > 0);
                }
            }
            assert(is_top(q, t));
        }
    }
}

/// The highest-ranked candidate is unique.
pub proof fn lemma_top_unique(q: Multiset<VoxelPriority>, e: VoxelPriority)
    requires
        is_top(q, e),
    ensures
        e == top_of(q),
{
    let t = top_of(q);
    assert(is_top(q, t));
    assert(e.at_most(t) && t.at_most(e));
}

} // verus!
