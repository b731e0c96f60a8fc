//! What holds of the builder's state after any number of steps.

use vstd::multiset::*;
use vstd::prelude::*;

use crate::tfce::ascent::{is_first_max, max_voxel, steepest_neighbor, lemma_steepest_is_higher_neighbor};
use crate::tfce::cluster::Fragment;
use crate::tfce::descent::{candidate, start, Suspended, Traversal};
use crate::voxel::{linked, links_in_range, valid_graph, Voxel};
use crate::voxel_priority::VoxelPriority;

verus! {

/// The queue of level `k`: levels below the stack height are the suspended
/// branches, bottom first; the level at the stack height is the active one.
pub open spec fn queue_at(s: Traversal, k: int) -> Multiset<VoxelPriority> {
    if k == s.stack.len() {
        s.queue
    } else {
        s.stack[k].queue
    }
}

/// The low-water mark of level `k`.
pub open spec fn low_at(s: Traversal, k: int) -> u64 {
    if k == s.stack.len() {
        s.low_value
    } else {
        s.stack[k].low_value
    }
}

/// The value that level `k` had reached when it was last active.
pub open spec fn ceiling(s: Traversal, k: int) -> u64 {
    if k == s.stack.len() {
        s.current_value
    } else {
        low_at(s, k + 1)
    }
}

/// The fragment of level `k`.
pub open spec fn fragment_at(s: Traversal, k: int) -> Fragment {
    if k == s.stack.len() {
        s.current
    } else {
        s.stack[k].cluster
    }
}

/// Every queued candidate names a node of the graph and carries its value.
pub open spec fn entries_valid(g: Seq<Voxel>, s: Traversal) -> bool {
    forall|k: int, e: VoxelPriority|
        0 <= k <= s.stack.len() && #[trigger] queue_at(s, k).count(e) > 0 ==> e.index < g.len()
            && e == candidate(g, e.index as int)
}

/// Every fragment, active or suspended, has consistent sizes.
pub open spec fn fragments_well_formed(s: Traversal) -> bool {
    forall|k: int| 0 <= k <= s.stack.len() ==> (#[trigger] fragment_at(s, k)).well_formed()
}

/// The nodes of all suspended fragments.
pub open spec fn stack_nodes(stack: Seq<Suspended>) -> Multiset<usize>
    decreases stack.len(),
{
    if stack.len() == 0 {
        Multiset::empty()
    } else {
        stack_nodes(stack.drop_last()).add(stack.last().cluster.nodes())
    }
}

/// The nodes of all fragments, active and suspended.
pub open spec fn all_nodes(s: Traversal) -> Multiset<usize> {
    s.current.nodes().add(stack_nodes(s.stack))
}

/// The fragments hold each visited node once, and no other node.
pub open spec fn nodes_are_visited(g: Seq<Voxel>, s: Traversal) -> bool {
    forall|i: usize| #[trigger]
        all_nodes(s).count(i) == (if i < g.len() && s.visited[i as int] {
            1nat
        } else {
            0nat
        })
}

/// Each suspended spine is non-empty and ends at the value at which its
/// branch was suspended.
pub open spec fn suspended_spines_end_at_ceiling(g: Seq<Voxel>, s: Traversal) -> bool {
    forall|k: int|
        0 <= k < s.stack.len() ==> {
            let spine = (#[trigger] s.stack[k]).cluster.spine;
            spine.len() >= 1 && g[spine.last() as int].value == ceiling(s, k)
        }
}

/// The traversal has just arrived on the top `m` of a hill: the fragment is
/// empty and `m`, unvisited, is the only candidate.
pub open spec fn fresh_at(g: Seq<Voxel>, s: Traversal, m: int) -> bool {
    &&& 0 <= m < g.len()
    &&& !s.visited[m]
    &&& s.queue == Multiset::singleton(candidate(g, m))
    &&& s.current_value == g[m].value
    &&& s.current == Fragment::empty()
}

/// The traversal has just arrived on the top of a hill.
pub open spec fn fresh(g: Seq<Voxel>, s: Traversal) -> bool {
    exists|m: int| fresh_at(g, s, m)
}

/// Unless the traversal has just arrived on a hill, the active spine is
/// non-empty and ends at the current value.
pub open spec fn active_spine_ends_at_ceiling(g: Seq<Voxel>, s: Traversal) -> bool {
    fresh(g, s) || (s.current.spine.len() >= 1 && g[s.current.spine.last() as int].value
        == s.current_value)
}

/// From the bottom of the stack to the active level the ceilings do not fall.
pub open spec fn ceilings_rise(s: Traversal) -> bool {
    forall|k: int| 0 <= k < s.stack.len() ==> #[trigger] ceiling(s, k) <= ceiling(s, k + 1)
}

/// Node `u` is queued at a level whose ceiling it does not exceed.
pub open spec fn secured(g: Seq<Voxel>, s: Traversal, u: int) -> bool {
    exists|k: int|
        0 <= k <= s.stack.len() && (#[trigger] queue_at(s, k)).count(candidate(g, u)) > 0
            && g[u].value <= ceiling(s, k)
}

/// An unvisited node below a visited neighbour is queued at a level whose
/// ceiling it does not exceed.
pub open spec fn lower_frontier_secured(g: Seq<Voxel>, s: Traversal) -> bool {
    forall|u: int, w: int|
        0 <= u < g.len() && 0 <= w < g.len() && !s.visited[u] && s.visited[w] && #[trigger] linked(
            g,
            w,
            u,
        ) && g[u].value <= g[w].value ==> secured(g, s, u)
}

/// Node `u` is queued at some level.
pub open spec fn queued(g: Seq<Voxel>, s: Traversal, u: int) -> bool {
    exists|k: int| 0 <= k <= s.stack.len() && (#[trigger] queue_at(s, k)).count(candidate(g, u)) > 0
}

/// Climbing from the unvisited node `u` along steepest neighbours leads,
/// through unvisited nodes only, to a queued node.
pub open spec fn covered(g: Seq<Voxel>, s: Traversal, u: int) -> bool
    decreases u64::MAX - g[u].value,
    when links_in_range(g) && 0 <= u < g.len()
    via covered_decreases
{
    &&& !s.visited[u]
    &&& queued(g, s, u) || match steepest_neighbor(g, u) {
        Some(next) => covered(g, s, next as int),
        None => false,
    }
}

#[via_fn]
proof fn covered_decreases(g: Seq<Voxel>, s: Traversal, u: int) {
    lemma_steepest_is_higher_neighbor(g, u);
}

/// Every unvisited neighbour of a visited node is covered.
pub open spec fn frontier_covered(g: Seq<Voxel>, s: Traversal) -> bool {
    forall|u: int, w: int|
        0 <= u < g.len() && 0 <= w < g.len() && !s.visited[u] && s.visited[w] && #[trigger] linked(
            g,
            w,
            u,
        ) ==> covered(g, s, u)
}

/// Along the spine the values do not rise.
pub open spec fn sorted_spine(g: Seq<Voxel>, spine: Seq<usize>) -> bool {
    forall|a: int, b: int|
        0 <= a <= b < spine.len() ==> g[spine[a] as int].value >= g[spine[b] as int].value
}

/// Along every spine of the subtree the values do not rise.
pub open spec fn sorted_spines(g: Seq<Voxel>, f: Fragment) -> bool
    decreases f,
{
    &&& sorted_spine(g, f.spine)
    &&& match f.first {
        Some(c) => sorted_spines(g, *c),
        None => true,
    }
    &&& match f.second {
        Some(c) => sorted_spines(g, *c),
        None => true,
    }
}

/// Along every spine built so far the values do not rise.
pub open spec fn all_spines_sorted(g: Seq<Voxel>, s: Traversal) -> bool {
    forall|k: int| 0 <= k <= s.stack.len() ==> sorted_spines(g, #[trigger] fragment_at(s, k))
}

/// The first maximum is visited by the first step.
pub open spec fn underway(g: Seq<Voxel>, s: Traversal) -> bool {
    s == start(g) || s.visited[max_voxel(g)]
}

/// The invariant of the builder.
pub open spec fn consistent(g: Seq<Voxel>, s: Traversal) -> bool {
    &&& s.visited.len() == g.len()
    &&& entries_valid(g, s)
    &&& fragments_well_formed(s)
    &&& nodes_are_visited(g, s)
    &&& suspended_spines_end_at_ceiling(g, s)
    &&& active_spine_ends_at_ceiling(g, s)
    &&& ceilings_rise(s)
    &&& lower_frontier_secured(g, s)
    &&& frontier_covered(g, s)
    &&& all_spines_sorted(g, s)
    &&& underway(g, s)
}

/// The first maximum of the first `n` nodes.
proof fn first_max_upto(g: Seq<Voxel>, n: int) -> (r: int)
    requires
        1 <= n <= g.len(),
    ensures
        0 <= r < n,
        forall|j: int| 0 <= j < n ==> g[j].value <= g[r].value,
        forall|j: int| 0 <= j < r ==> g[j].value < g[r].value,
    decreases n,
{
    if n == 1 {
        0
    } else {
        let p = first_max_upto(g, n - 1);
        if g[n - 1].value > g[p].value {
            n - 1
        } else {
            p
        }
    }
}

/// A graph with at least one node has a first maximum.
pub proof fn lemma_max_voxel(g: Seq<Voxel>)
    requires
        g.len() >= 1,
    ensures
        is_first_max(g, max_voxel(g)),
{
    let r = first_max_upto(g, g.len() as int);
    assert(is_first_max(g, r));
}

/// The invariant holds before the first step.
pub proof fn lemma_start_consistent(g: Seq<Voxel>)
    requires
        valid_graph(g),
    ensures
        consistent(g, start(g)),
{
    broadcast use vstd::seq_lib::group_to_multiset_ensures;

    let s = start(g);
    lemma_max_voxel(g);
    let m = max_voxel(g);
    assert(fresh_at(g, s, m));
    assert(Fragment::empty().well_formed());
    assert(sorted_spines(g, Fragment::empty()));
    assert(Fragment::empty().nodes() =~= Multiset::<usize>::empty());
    assert(all_nodes(s) =~= Multiset::<usize>::empty());
}

} // verus!
