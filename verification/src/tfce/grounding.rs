//! What the builder's state holds of the clusters at each threshold.

use vstd::multiset::*;
use vstd::prelude::*;

use crate::tfce::ascent::{hill_top, lemma_steepest_is_higher_neighbor, steepest_neighbor};
use crate::tfce::cluster::Fragment;
use crate::tfce::consistency::{
    ceiling, ceilings_rise, fragment_at, fresh_at, low_at, lower_frontier_secured, queue_at,
};
use crate::tfce::descent::{candidate, descended, unvisited_links, Traversal};
use crate::tfce::heap_order::exit_value;
use crate::tfce::members::{at_level, enclosed, members};
use crate::tfce::preservation::{lemma_secured_at_most_current, lemma_unvisited_links};
use crate::tfce::threshold::{connected_inside, sealed};
use crate::voxel::{linked, links_in_range, valid_graph, Voxel};
use crate::voxel_priority::VoxelPriority;

verus! {

/// Node `u` is queued at level `k` or at a level above it.
pub open spec fn queued_from(g: Seq<Voxel>, s: Traversal, k: int, u: int) -> bool {
    exists|n: int|
        0 <= n && k <= n <= s.stack.len() && (#[trigger] queue_at(s, n)).count(candidate(g, u)) > 0
}

/// Climbing from the unvisited node `u` along steepest neighbours leads,
/// through unvisited nodes only, to a node queued at level `k` or above.
pub open spec fn covered_from(g: Seq<Voxel>, s: Traversal, k: int, u: int) -> bool
    decreases u64::MAX - g[u].value,
    when links_in_range(g) && 0 <= u < g.len()
    via covered_from_decreases
{
    &&& !s.visited[u]
    &&& queued_from(g, s, k, u) || match steepest_neighbor(g, u) {
        Some(next) => covered_from(g, s, k, next as int),
        None => false,
    }
}

#[via_fn]
proof fn covered_from_decreases(g: Seq<Voxel>, s: Traversal, k: int, u: int) {
    lemma_steepest_is_higher_neighbor(g, u);
}

/// Node `u` is owed to level `k`: it does not lie below the low-water mark
/// of the level, and it is covered from the level on. Such a node is
/// visited before the level is joined with the level below it.
pub open spec fn pending(g: Seq<Voxel>, s: Traversal, k: int, u: int) -> bool {
    &&& 0 <= u < g.len()
    &&& g[u].value >= low_at(s, k)
    &&& covered_from(g, s, k, u)
}

/// Node `y` is queued at level `k`, or owed to the level above it.
pub open spec fn held(g: Seq<Voxel>, s: Traversal, k: int, y: int) -> bool {
    queue_at(s, k).count(candidate(g, y)) > 0 || (k < s.stack.len() && pending(g, s, k + 1, y))
}

/// Node `c` is a member of level `k` or of a level above it.
pub open spec fn above(s: Traversal, k: int, c: int) -> bool {
    exists|n: int| k <= n && #[trigger] at_level(s, n, c as usize)
}

/// The members of each level hang together.
pub open spec fn levels_connected(g: Seq<Voxel>, s: Traversal) -> bool {
    forall|k: int|
        0 <= k <= s.stack.len() ==> connected_inside(g, members(#[trigger] fragment_at(s, k)))
}

/// Each unvisited candidate of a level is linked from a member of the
/// level, unless the traversal has just arrived on it.
pub open spec fn entries_adjacent(g: Seq<Voxel>, s: Traversal) -> bool {
    forall|k: int, u: int|
        0 <= k <= s.stack.len() && 0 <= u < g.len() && !s.visited[u] && (#[trigger] queue_at(
            s,
            k,
        )).count(#[trigger] candidate(g, u)) > 0 ==> (exists|z: usize| #[trigger]
            at_level(s, k, z) && linked(g, z as int, u)) || (k == s.stack.len() && fresh_at(
            g,
            s,
            u,
        ))
}

/// Each unvisited neighbour of a member of a level is queued at the level
/// or owed to the level above it.
pub open spec fn frontier_held(g: Seq<Voxel>, s: Traversal) -> bool {
    forall|k: int, z: usize, y: int| #[trigger]
        at_level(s, k, z) && #[trigger] linked(g, z as int, y) && !s.visited[y] ==> held(
            g,
            s,
            k,
            y,
        )
}

/// No unvisited neighbour of a member above the ceiling of its level lies
/// above that ceiling.
pub open spec fn high_members_sealed(g: Seq<Voxel>, s: Traversal) -> bool {
    forall|k: int, y: usize, u: int| #[trigger]
        at_level(s, k, y) && g[y as int].value > ceiling(s, k) && #[trigger] linked(
            g,
            y as int,
            u,
        ) && !s.visited[u] ==> g[u].value <= ceiling(s, k)
}

/// A link between a level and a level above it has an end at or below the
/// ceiling of the lower level.
pub open spec fn levels_apart(g: Seq<Voxel>, s: Traversal) -> bool {
    forall|k: int, n: int, y: usize, z: usize| #[trigger]
        at_level(s, k, y) && #[trigger] at_level(s, n, z) && k < n && linked(
            g,
            z as int,
            y as int,
        ) ==> g[y as int].value <= ceiling(s, k) || g[z as int].value <= ceiling(s, k)
}

/// Level `k` hangs on the level below it: a member of that level links to
/// a node that is a member of level `k` or above, or is owed to level `k`.
pub open spec fn hangs_on(g: Seq<Voxel>, s: Traversal, k: int) -> bool {
    exists|z: usize, c: int| #[trigger]
        at_level(s, k - 1, z) && #[trigger] linked(g, z as int, c) && (above(s, k, c) || pending(
            g,
            s,
            k,
            c,
        ))
}

/// Each level but the lowest hangs on the level below it.
pub open spec fn levels_linked(g: Seq<Voxel>, s: Traversal) -> bool {
    forall|k: int| 1 <= k <= s.stack.len() ==> #[trigger] hangs_on(g, s, k)
}

/// The value of the node after node `j` of the spine, or `below` if node
/// `j` is the last.
pub open spec fn next_value(g: Seq<Voxel>, f: Fragment, j: int, below: u64) -> u64 {
    if j + 1 < f.spine.len() {
        g[f.spine[j + 1] as int].value
    } else {
        below
    }
}

/// The cluster that node `j` of the spine stands for hangs together, and
/// if the band below the node is not empty, the cluster is sealed at the
/// lower end of the band.
pub open spec fn position_settled(g: Seq<Voxel>, f: Fragment, j: int, below: u64) -> bool {
    &&& connected_inside(g, enclosed(f, j))
    &&& next_value(g, f, j, below) < g[f.spine[j] as int].value ==> sealed(
        g,
        enclosed(f, j),
        next_value(g, f, j, below),
    )
}

/// Every node of the subtree is settled, but for the last node of the
/// spine of a fragment that is still `open`. The fragment is entered from
/// the value `below`.
pub open spec fn settled(g: Seq<Voxel>, f: Fragment, below: u64, open: bool) -> bool
    decreases f,
{
    &&& forall|j: int|
        0 <= j < f.spine.len() && (j + 1 < f.spine.len() || !open) ==> #[trigger] position_settled(
            g,
            f,
            j,
            below,
        )
    &&& match f.first {
        Some(c) => settled(g, *c, exit_value(g, f, below), false),
        None => true,
    }
    &&& match f.second {
        Some(c) => settled(g, *c, exit_value(g, f, below), false),
        None => true,
    }
}

/// Every level is settled, but for the last node of its spine.
pub open spec fn levels_settled(g: Seq<Voxel>, s: Traversal) -> bool {
    forall|k: int| 0 <= k <= s.stack.len() ==> settled(g, #[trigger] fragment_at(s, k), 0, true)
}

/// What the builder's state holds of the clusters at each threshold.
pub open spec fn grounded(g: Seq<Voxel>, s: Traversal) -> bool {
    &&& levels_connected(g, s)
    &&& entries_adjacent(g, s)
    &&& frontier_held(g, s)
    &&& high_members_sealed(g, s)
    &&& levels_apart(g, s)
    &&& levels_linked(g, s)
    &&& levels_settled(g, s)
}

/// Coverage from level `k` on carries over from `s` to coverage from level
/// `n` on in `t`, when the same nodes are visited and every unvisited node
/// queued from level `k` on in `s` is covered from level `n` on in `t`.
pub proof fn lemma_cover_from_transfers(
    g: Seq<Voxel>,
    s: Traversal,
    t: Traversal,
    k: int,
    n: int,
    u: int,
)
    requires
        links_in_range(g),
        0 <= u < g.len(),
        s.visited == t.visited,
        forall|x: int|
            0 <= x < g.len() && !s.visited[x] && #[trigger] queued_from(g, s, k, x)
                ==> covered_from(g, t, n, x),
        covered_from(g, s, k, u),
    ensures
        covered_from(g, t, n, u),
    decreases u64::MAX - g[u].value,
{
    if !queued_from(g, s, k, u) {
        lemma_steepest_is_higher_neighbor(g, u);
        let next = steepest_neighbor(g, u)->Some_0;
        let at = choose|at: int|
            0 <= at < g[u].voxel_links@.len() && #[trigger] g[u].voxel_links@[at] == next as int;
        assert(g[u].voxel_links@[at] < g.len());
        lemma_cover_from_transfers(g, s, t, k, n, next as int);
    }
}

/// A node covered before a visit of another node is covered after it.
pub proof fn lemma_cover_from_after_descent(
    g: Seq<Voxel>,
    s: Traversal,
    e: VoxelPriority,
    k: int,
    x: int,
)
    requires
        valid_graph(g),
        s.visited.len() == g.len(),
        e.index < g.len(),
        e == candidate(g, e.index as int),
        0 <= x < g.len(),
        x != e.index,
        k <= s.stack.len(),
        covered_from(g, s, k, x),
    ensures
        covered_from(g, descended(g, s, e), k, x),
    decreases u64::MAX - g[x].value,
{
    let t = descended(g, s, e);
    let top = s.stack.len() as int;
    let links = g[e.index as int].voxel_links@;
    if queued_from(g, s, k, x) {
        let n = choose|n: int|
            0 <= n && k <= n <= s.stack.len() && (#[trigger] queue_at(s, n)).count(
                candidate(g, x),
            ) > 0;
        assert(queue_at(t, n).count(candidate(g, x)) > 0);
        assert(queued_from(g, t, k, x));
    } else {
        lemma_steepest_is_higher_neighbor(g, x);
        let next = steepest_neighbor(g, x)->Some_0;
        let at = choose|at: int|
            0 <= at < g[x].voxel_links@.len() && #[trigger] g[x].voxel_links@[at] == next as int;
        assert(g[x].voxel_links@[at] < g.len());
        if next == e.index {
            assert(linked(g, x, next as int));
            assert(linked(g, next as int, x));
            let j = choose|j: int| 0 <= j < links.len() && #[trigger] links[j] == x;
            lemma_unvisited_links(g, links, t.visited);
            assert(unvisited_links(g, links, t.visited).count(candidate(g, links[j] as int)) > 0);
            assert(queue_at(t, top).count(candidate(g, x)) > 0);
            assert(queued_from(g, t, k, x));
        } else {
            lemma_cover_from_after_descent(g, s, e, k, next as int);
        }
    }
}

/// After a diversion every node on the climb from the candidate is covered
/// from the new level on: the climb ends at the one queued candidate.
pub proof fn lemma_climb_covered_from(g: Seq<Voxel>, s: Traversal, t: Traversal, x: int)
    requires
        valid_graph(g),
        s.visited.len() == g.len(),
        ceilings_rise(s),
        lower_frontier_secured(g, s),
        0 <= x < g.len(),
        !s.visited[x],
        g[x].value > s.current_value,
        t.visited == s.visited,
        t.queue.count(candidate(g, hill_top(g, x))) > 0,
    ensures
        covered_from(g, t, t.stack.len() as int, x),
    decreases u64::MAX - g[x].value,
{
    lemma_steepest_is_higher_neighbor(g, x);
    match steepest_neighbor(g, x) {
        Some(next) => {
            let at = choose|at: int|
                0 <= at < g[x].voxel_links@.len() && #[trigger] g[x].voxel_links@[at]
                    == next as int;
            assert(g[x].voxel_links@[at] < g.len());
            assert(linked(g, x, next as int));
            assert(linked(g, next as int, x));
            if s.visited[next as int] {
                lemma_secured_at_most_current(g, s, x);
            }
            lemma_climb_covered_from(g, s, t, next as int);
        },
        None => {
            assert(queue_at(t, t.stack.len() as int).count(candidate(g, x)) > 0);
            assert(queued_from(g, t, t.stack.len() as int, x));
        },
    }
}

/// A node owed to a level lies no higher than a candidate queued at the
/// level or above it.
pub proof fn lemma_covered_witness(g: Seq<Voxel>, s: Traversal, k: int, u: int) -> (q: int)
    requires
        links_in_range(g),
        0 <= u < g.len(),
        covered_from(g, s, k, u),
    ensures
        0 <= q < g.len(),
        !s.visited[q],
        queued_from(g, s, k, q),
        g[q].value >= g[u].value,
    decreases u64::MAX - g[u].value,
{
    if queued_from(g, s, k, u) {
        u
    } else {
        lemma_steepest_is_higher_neighbor(g, u);
        let next = steepest_neighbor(g, u)->Some_0;
        let at = choose|at: int|
            0 <= at < g[u].voxel_links@.len() && #[trigger] g[u].voxel_links@[at] == next as int;
        assert(g[u].voxel_links@[at] < g.len());
        lemma_covered_witness(g, s, k, next as int)
    }
}

} // verus!
