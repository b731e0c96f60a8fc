//! Each kind of step keeps what the state holds of the clusters.

use vstd::multiset::*;
use vstd::prelude::*;

use crate::tfce::ascent::hill_top;
use crate::tfce::cluster::Fragment;
use crate::tfce::consistency::{
    ceiling, ceilings_rise, consistent, fragment_at, fresh, fresh_at, lemma_max_voxel, low_at,
    queue_at,
};
use crate::tfce::descent::{
    candidate, descended, diverted, is_top, lemma_has_top, merged, run, skipped, start, step,
    top_of, unvisited_links, Traversal,
};
use crate::tfce::grounding::{
    above, covered_from, entries_adjacent, frontier_held, grounded, hangs_on, held,
    high_members_sealed, lemma_climb_covered_from, lemma_cover_from_after_descent,
    lemma_cover_from_transfers, lemma_covered_witness, levels_apart, levels_connected,
    levels_linked, levels_settled, next_value, pending, position_settled, queued_from, settled,
};
use crate::tfce::heap_order::{exit_value, lemma_run_bounded, levels_bounded};
use crate::tfce::progress::lemma_run_consistent;
use crate::tfce::members::{
    at_level, child_members, enclosed, lemma_level_bounded, lemma_levels, members,
};
use crate::tfce::preservation::{
    lemma_diverted_consistent, lemma_merged_consistent, lemma_unvisited_links,
};
use crate::tfce::threshold::{connected_inside, lemma_connected_single, lemma_connected_union};
use crate::voxel::{linked, valid_graph, Voxel};
use crate::voxel_priority::VoxelPriority;

verus! {

/// Before the first step nothing is claimed of any cluster.
pub proof fn lemma_start_grounded(g: Seq<Voxel>)
    requires
        valid_graph(g),
    ensures
        grounded(g, start(g)),
{
    let s = start(g);
    lemma_max_voxel(g);
    let m = crate::tfce::ascent::max_voxel(g);
    assert(fresh_at(g, s, m));
    assert(members(Fragment::empty()) =~= Seq::<usize>::empty());
    assert(fragment_at(s, 0) == Fragment::empty());
    assert(settled(g, Fragment::empty(), 0, true));
    assert forall|k: int, u: int|
        0 <= k <= s.stack.len() && 0 <= u < g.len() && !s.visited[u] && (#[trigger] queue_at(
            s,
            k,
        )).count(#[trigger] candidate(g, u)) > 0 implies (exists|z: usize| #[trigger]
        at_level(s, k, z) && linked(g, z as int, u)) || (k == s.stack.len() && fresh_at(
        g,
        s,
        u,
    )) by {
        assert(candidate(g, u) == candidate(g, m));
    }
}

/// Dropping a visited candidate keeps what the state holds of the
/// clusters.
pub proof fn lemma_skipped_grounded(g: Seq<Voxel>, s: Traversal, e: VoxelPriority)
    requires
        valid_graph(g),
        consistent(g, s),
        grounded(g, s),
        is_top(s.queue, e),
        s.visited[e.index as int],
    ensures
        grounded(g, skipped(s, e)),
{
    let t = skipped(s, e);
    let top = s.stack.len() as int;
    assert(queue_at(s, top).count(e) > 0);
    assert forall|k: int| 0 <= k <= top implies fragment_at(t, k) == fragment_at(s, k) && ceiling(
        t,
        k,
    ) == ceiling(s, k) && low_at(t, k) == low_at(s, k) by {}
    assert forall|k: int, i: usize| at_level(t, k, i) == at_level(s, k, i) by {}
    assert forall|k: int, x: int|
        0 <= k <= top && 0 <= x < g.len() && !s.visited[x] implies (queue_at(t, k).count(
        candidate(g, x),
    ) > 0) == (queue_at(s, k).count(candidate(g, x)) > 0) by {}
    // candidates
    assert forall|k: int, u: int|
        0 <= k <= t.stack.len() && 0 <= u < g.len() && !t.visited[u] && (#[trigger] queue_at(
            t,
            k,
        )).count(#[trigger] candidate(g, u)) > 0 implies (exists|z: usize| #[trigger]
        at_level(t, k, z) && linked(g, z as int, u)) || (k == t.stack.len() && fresh_at(
        g,
        t,
        u,
    )) by {
        assert(queue_at(s, k).count(candidate(g, u)) > 0);
        if k == top && fresh_at(g, s, u) {
            assert(e == candidate(g, u));
        } else {
            let z = choose|z: usize| #[trigger] at_level(s, k, z) && linked(g, z as int, u);
            assert(at_level(t, k, z));
        }
    }
    // coverage
    assert forall|k: int, x: int|
        0 <= x < g.len() && !s.visited[x] && #[trigger] queued_from(g, s, k, x) implies covered_from(
        g,
        t,
        k,
        x,
    ) by {
        let n = choose|n: int|
            0 <= n && k <= n <= s.stack.len() && (#[trigger] queue_at(s, n)).count(
                candidate(g, x),
            ) > 0;
        assert(queue_at(t, n).count(candidate(g, x)) > 0);
        assert(queued_from(g, t, k, x));
    }
    assert forall|k: int, u: int| pending(g, s, k, u) implies pending(g, t, k, u) by {
        lemma_cover_from_transfers(g, s, t, k, k, u);
    }
    assert forall|k: int, z: usize, y: int| #[trigger]
        at_level(t, k, z) && #[trigger] linked(g, z as int, y) && !t.visited[y] implies held(
        g,
        t,
        k,
        y,
    ) by {
        assert(held(g, s, k, y));
        lemma_link_in_range(g, z as int, y);
    }
    assert forall|k: int| 1 <= k <= t.stack.len() implies #[trigger] hangs_on(g, t, k) by {
        assert(hangs_on(g, s, k));
        let (z, c) = choose|z: usize, c: int| #[trigger]
            at_level(s, k - 1, z) && #[trigger] linked(g, z as int, c) && (above(s, k, c)
                || pending(g, s, k, c));
        if above(s, k, c) {
            let n = choose|n: int| k <= n && #[trigger] at_level(s, n, c as usize);
            assert(at_level(t, n, c as usize));
        }
        assert(at_level(t, k - 1, z));
    }
    assert forall|k: int| 0 <= k <= t.stack.len() implies connected_inside(
        g,
        members(#[trigger] fragment_at(t, k)),
    ) && settled(g, fragment_at(t, k), 0, true) by {
        assert(fragment_at(t, k) == fragment_at(s, k));
    }
}

/// What is covered from a level on is covered from every level below it
/// on.
pub proof fn lemma_cover_from_lower(g: Seq<Voxel>, t: Traversal, k: int, n: int, x: int)
    requires
        valid_graph(g),
        0 <= x < g.len(),
        k <= n,
        covered_from(g, t, n, x),
    ensures
        covered_from(g, t, k, x),
{
    assert forall|y: int|
        0 <= y < g.len() && !t.visited[y] && #[trigger] queued_from(g, t, n, y) implies covered_from(
        g,
        t,
        k,
        y,
    ) by {
        let m = choose|m: int|
            0 <= m && n <= m <= t.stack.len() && (#[trigger] queue_at(t, m)).count(
                candidate(g, y),
            ) > 0;
        assert(queued_from(g, t, k, y));
    }
    lemma_cover_from_transfers(g, t, t, n, k, x);
}

/// Diverting to the hill of the highest-ranked candidate keeps what the
/// state holds of the clusters.
pub proof fn lemma_diverted_grounded(g: Seq<Voxel>, s: Traversal, e: VoxelPriority)
    requires
        valid_graph(g),
        consistent(g, s),
        grounded(g, s),
        is_top(s.queue, e),
        !s.visited[e.index as int],
        e.value > s.current_value,
    ensures
        grounded(g, diverted(g, s, e)),
{
    let t = diverted(g, s, e);
    let top = s.stack.len() as int;
    let c0 = e.index as int;
    let m = hill_top(g, c0);
    assert(queue_at(s, top).count(e) > 0);
    assert(e == candidate(g, c0));
    lemma_diverted_consistent(g, s, e);
    assert forall|k: int| 0 <= k <= top implies fragment_at(t, k) == fragment_at(s, k) && ceiling(
        t,
        k,
    ) == ceiling(s, k) && low_at(t, k) == low_at(s, k) by {}
    assert(fragment_at(t, top + 1) == Fragment::empty());
    assert(members(Fragment::empty()) =~= Seq::<usize>::empty());
    assert forall|k: int, i: usize| at_level(t, k, i) == (k <= top && at_level(s, k, i)) by {}
    assert forall|k: int, x: int|
        0 <= k <= top && 0 <= x < g.len() && x != c0 implies (queue_at(t, k).count(
        candidate(g, x),
    ) > 0) == (queue_at(s, k).count(candidate(g, x)) > 0) by {}
    assert forall|k: int, x: VoxelPriority|
        0 <= k <= top && queue_at(t, k).count(x) > 0 implies queue_at(s, k).count(x) > 0 by {}
    lemma_climb_covered_from(g, s, t, c0);
    assert(pending(g, t, top + 1, c0));
    // candidates
    assert forall|k: int, u: int|
        0 <= k <= t.stack.len() && 0 <= u < g.len() && !t.visited[u] && (#[trigger] queue_at(
            t,
            k,
        )).count(#[trigger] candidate(g, u)) > 0 implies (exists|z: usize| #[trigger]
        at_level(t, k, z) && linked(g, z as int, u)) || (k == t.stack.len() && fresh_at(
        g,
        t,
        u,
    )) by {
        if k <= top {
            assert(queue_at(s, k).count(candidate(g, u)) > 0);
            if k == top && fresh_at(g, s, u) {
                assert(fresh(g, s));
            }
            let z = choose|z: usize| #[trigger] at_level(s, k, z) && linked(g, z as int, u);
            assert(at_level(t, k, z));
        } else {
            assert(candidate(g, u) == candidate(g, m));
        }
    }
    // coverage
    assert forall|k: int, x: int|
        k <= top + 1 && 0 <= x < g.len() && !s.visited[x] && #[trigger] queued_from(g, s, k, x)
            implies covered_from(g, t, k, x) by {
        if x == c0 {
            lemma_cover_from_lower(g, t, k, top + 1, x);
        } else {
            let n = choose|n: int|
                0 <= n && k <= n <= s.stack.len() && (#[trigger] queue_at(s, n)).count(
                    candidate(g, x),
                ) > 0;
            assert(queue_at(t, n).count(candidate(g, x)) > 0);
            assert(queued_from(g, t, k, x));
        }
    }
    assert forall|k: int, u: int| 0 <= k <= top && pending(g, s, k, u) implies pending(
        g,
        t,
        k,
        u,
    ) by {
        lemma_cover_from_transfers(g, s, t, k, k, u);
    }
    assert forall|k: int, z: usize, y: int| #[trigger]
        at_level(t, k, z) && #[trigger] linked(g, z as int, y) && !t.visited[y] implies held(
        g,
        t,
        k,
        y,
    ) by {
        assert(at_level(s, k, z));
        assert(held(g, s, k, y));
        lemma_link_in_range(g, z as int, y);
    }
    assert forall|k: int| 1 <= k <= t.stack.len() implies #[trigger] hangs_on(g, t, k) by {
        if k <= top {
            assert(hangs_on(g, s, k));
            let (z, c) = choose|z: usize, c: int| #[trigger]
                at_level(s, k - 1, z) && #[trigger] linked(g, z as int, c) && (above(s, k, c)
                    || pending(g, s, k, c));
            if above(s, k, c) {
                let n = choose|n: int| k <= n && #[trigger] at_level(s, n, c as usize);
                assert(at_level(t, n, c as usize));
            }
            assert(at_level(t, k - 1, z));
        } else {
            assert(!fresh(g, s));
            let z = choose|z: usize| #[trigger] at_level(s, top, z) && linked(g, z as int, c0);
            assert(at_level(t, top, z) && linked(g, z as int, c0));
        }
    }
    assert(settled(g, Fragment::empty(), 0, true));
    assert forall|k: int| 0 <= k <= t.stack.len() implies connected_inside(
        g,
        members(#[trigger] fragment_at(t, k)),
    ) && settled(g, fragment_at(t, k), 0, true) by {
        if k <= top {
            assert(fragment_at(t, k) == fragment_at(s, k));
        }
    }
    assert forall|k: int, y: usize, u: int| #[trigger]
        at_level(t, k, y) && g[y as int].value > ceiling(t, k) && #[trigger] linked(
            g,
            y as int,
            u,
        ) && !t.visited[u] implies g[u].value <= ceiling(t, k) by {
        assert(at_level(s, k, y));
    }
    assert forall|k: int, n: int, y: usize, z: usize| #[trigger]
        at_level(t, k, y) && #[trigger] at_level(t, n, z) && k < n && linked(
            g,
            z as int,
            y as int,
        ) implies g[y as int].value <= ceiling(t, k) || g[z as int].value <= ceiling(t, k) by {
        assert(at_level(s, k, y) && at_level(s, n, z));
    }
}

/// From the bottom of the stack up the ceilings do not fall.
pub proof fn lemma_ceilings_ordered(s: Traversal, k: int, n: int)
    requires
        ceilings_rise(s),
        0 <= k <= n <= s.stack.len(),
    ensures
        ceiling(s, k) <= ceiling(s, n),
    decreases n - k,
{
    if k < n {
        lemma_ceilings_ordered(s, k + 1, n);
        assert(ceiling(s, k) <= ceiling(s, k + 1));
    }
}

/// What a visit changes: the visited node joins the active level, its
/// unvisited neighbours are queued there, and the ceiling of the active
/// level falls to its value. Everything else stays.
pub open spec fn visit_frame(g: Seq<Voxel>, s: Traversal, e: VoxelPriority) -> bool {
    let t = descended(g, s, e);
    let top = s.stack.len() as int;
    let c = e.index;
    &&& t.stack.len() == s.stack.len()
    &&& forall|k: int|
        0 <= k < top ==> #[trigger] fragment_at(t, k) == fragment_at(s, k) && queue_at(t, k)
            == queue_at(s, k)
    &&& forall|k: int| 0 <= k < top ==> #[trigger] ceiling(t, k) == ceiling(s, k)
    &&& forall|k: int| 0 <= k <= top ==> #[trigger] low_at(t, k) == low_at(s, k)
    &&& ceiling(t, top) == g[c as int].value
    &&& child_members(fragment_at(t, top)) == child_members(fragment_at(s, top))
    &&& members(fragment_at(t, top)) == members(fragment_at(s, top)).push(c)
    &&& forall|k: int, i: usize| #[trigger]
        at_level(t, k, i) <==> at_level(s, k, i) || (k == top && i == c)
    &&& forall|x: int|
        0 <= x < g.len() && x != c && s.queue.count(candidate(g, x)) > 0 ==> (#[trigger] queue_at(
            t,
            top,
        ).count(candidate(g, x))) > 0
    &&& forall|y: int|
        linked(g, c as int, y) && !t.visited[y] ==> (#[trigger] queue_at(t, top).count(
            candidate(g, y),
        )) > 0
    &&& forall|x: int|
        0 <= x < g.len() && (#[trigger] queue_at(t, top).count(candidate(g, x))) > 0
            && !t.visited[x] ==> s.queue.count(candidate(g, x)) > 0 || linked(g, c as int, x)
    &&& forall|x: int|
        0 <= x < g.len() && (#[trigger] s.queue.count(candidate(g, x))) > 0 ==> g[x].value
            <= g[c as int].value
}

/// A visit changes what `visit_frame` says.
pub proof fn lemma_visit_frame(g: Seq<Voxel>, s: Traversal, e: VoxelPriority)
    requires
        valid_graph(g),
        consistent(g, s),
        is_top(s.queue, e),
        !s.visited[e.index as int],
    ensures
        visit_frame(g, s, e),
        e.index < g.len(),
        e == candidate(g, e.index as int),
{
    let t = descended(g, s, e);
    let top = s.stack.len() as int;
    let c = e.index;
    let links = g[c as int].voxel_links@;
    let pushed = unvisited_links(g, links, t.visited);
    assert(queue_at(s, top).count(e) > 0);
    assert(e == candidate(g, c as int));
    lemma_unvisited_links(g, links, t.visited);
    assert(fragment_at(t, top) == t.current);
    assert(fragment_at(s, top) == s.current);
    assert(child_members(t.current) == child_members(s.current));
    assert(members(t.current) =~= members(s.current).push(c));
    assert forall|k: int, i: usize| #[trigger]
        at_level(t, k, i) <==> at_level(s, k, i) || (k == top && i == c) by {
        if 0 <= k < top {
            assert(fragment_at(t, k) == fragment_at(s, k));
        } else if k == top {
            let before = members(s.current);
            let after = members(t.current);
            if before.contains(i) {
                let at = choose|at: int| 0 <= at < before.len() && before[at] == i;
                assert(after[at] == i);
            }
            if i == c {
                assert(after[before.len() as int] == c);
            }
            if after.contains(i) && i != c {
                let at = choose|at: int| 0 <= at < after.len() && after[at] == i;
                assert(before[at] == i);
            }
        }
    }
    assert forall|y: int| linked(g, c as int, y) && !t.visited[y] implies (#[trigger] queue_at(
        t,
        top,
    ).count(candidate(g, y))) > 0 by {
        let j = choose|j: int| 0 <= j < links.len() && #[trigger] links[j] == y;
        assert(pushed.count(candidate(g, links[j] as int)) > 0);
    }
    assert forall|x: int|
        0 <= x < g.len() && (#[trigger] queue_at(t, top).count(candidate(g, x))) > 0
            && !t.visited[x] implies s.queue.count(candidate(g, x)) > 0 || linked(
        g,
        c as int,
        x,
    ) by {
        if pushed.count(candidate(g, x)) > 0 {
            let j = choose|j: int|
                0 <= j < links.len() && !t.visited[links[j] as int] && candidate(g, x)
                    == candidate(g, #[trigger] links[j] as int);
            assert(g[c as int].voxel_links@[j] < g.len());
            assert(links[j] == x);
        }
    }
    assert forall|x: int|
        0 <= x < g.len() && (#[trigger] s.queue.count(candidate(g, x))) > 0 implies g[x].value
        <= g[c as int].value by {
        assert(candidate(g, x).at_most(e));
    }
}

/// A node owed to a level before a visit of another node is owed to it
/// after the visit.
proof fn lemma_pending_after_descent(g: Seq<Voxel>, s: Traversal, e: VoxelPriority, k: int, u: int)
    requires
        valid_graph(g),
        consistent(g, s),
        is_top(s.queue, e),
        !s.visited[e.index as int],
        0 <= k <= s.stack.len(),
        pending(g, s, k, u),
        u != e.index,
    ensures
        pending(g, descended(g, s, e), k, u),
{
    lemma_visit_frame(g, s, e);
    lemma_cover_from_after_descent(g, s, e, k, u);
}

/// After a visit the members of each level hang together, and each
/// unvisited candidate is linked from a member of its level.
proof fn lemma_descended_connected(g: Seq<Voxel>, s: Traversal, e: VoxelPriority)
    requires
        valid_graph(g),
        consistent(g, s),
        grounded(g, s),
        is_top(s.queue, e),
        !s.visited[e.index as int],
    ensures
        levels_connected(g, descended(g, s, e)),
        entries_adjacent(g, descended(g, s, e)),
{
    let t = descended(g, s, e);
    let top = s.stack.len() as int;
    let c = e.index;
    lemma_visit_frame(g, s, e);
    let before = members(fragment_at(s, top));
    let after = members(fragment_at(t, top));
    assert(connected_inside(g, before));
    assert(connected_inside(g, after)) by {
        let single = seq![c];
        assert(single[0] == c);
        lemma_connected_single(g, single, c);
        if fresh(g, s) {
            let m = choose|m: int| fresh_at(g, s, m);
            assert(before =~= Seq::<usize>::empty());
            assert(after =~= single);
        } else {
            assert(queue_at(s, top).count(candidate(g, c as int)) > 0);
            let z = choose|z: usize| #[trigger] at_level(s, top, z) && linked(
                g,
                z as int,
                c as int,
            );
            assert(linked(g, c as int, z as int));
            assert forall|x: usize| after.contains(x) <==> before.contains(x) || single.contains(
                x,
            ) by {
                assert(at_level(t, top, x) <==> at_level(s, top, x) || x == c);
            }
            lemma_connected_union(g, before, single, after, z, c);
        }
    }
    assert forall|k: int| 0 <= k <= t.stack.len() implies connected_inside(
        g,
        members(#[trigger] fragment_at(t, k)),
    ) by {
        if k < top {
            assert(fragment_at(t, k) == fragment_at(s, k));
        }
    }
    assert forall|k: int, u: int|
        0 <= k <= t.stack.len() && 0 <= u < g.len() && !t.visited[u] && (#[trigger] queue_at(
            t,
            k,
        )).count(#[trigger] candidate(g, u)) > 0 implies (exists|z: usize| #[trigger]
        at_level(t, k, z) && linked(g, z as int, u)) || (k == t.stack.len() && fresh_at(
        g,
        t,
        u,
    )) by {
        if k < top {
            assert(queue_at(t, k) == queue_at(s, k));
            assert(queue_at(s, k).count(candidate(g, u)) > 0);
            let z = choose|z: usize| #[trigger] at_level(s, k, z) && linked(g, z as int, u);
            assert(at_level(t, k, z));
        } else if linked(g, c as int, u) {
            assert(at_level(t, top, c));
        } else {
            assert(s.queue.count(candidate(g, u)) > 0);
            assert(queue_at(s, top).count(candidate(g, u)) > 0);
            if fresh_at(g, s, u) {
                assert(e == candidate(g, u));
            }
            let z = choose|z: usize| #[trigger] at_level(s, top, z) && linked(g, z as int, u);
            assert(at_level(t, top, z));
        }
    }
}

/// After a visit each unvisited neighbour of a member of a level is queued
/// at the level or owed to the level above it, and each level but the
/// lowest hangs on the level below it.
proof fn lemma_descended_held(g: Seq<Voxel>, s: Traversal, e: VoxelPriority)
    requires
        valid_graph(g),
        consistent(g, s),
        grounded(g, s),
        is_top(s.queue, e),
        !s.visited[e.index as int],
    ensures
        frontier_held(g, descended(g, s, e)),
        levels_linked(g, descended(g, s, e)),
{
    let t = descended(g, s, e);
    let top = s.stack.len() as int;
    let c = e.index;
    lemma_visit_frame(g, s, e);
    assert forall|k: int, z: usize, y: int| #[trigger]
        at_level(t, k, z) && #[trigger] linked(g, z as int, y) && !t.visited[y] implies held(
        g,
        t,
        k,
        y,
    ) by {
        lemma_link_in_range(g, z as int, y);
        if k == top && z == c {
            assert(queue_at(t, top).count(candidate(g, y)) > 0);
        } else {
            assert(at_level(s, k, z));
            assert(held(g, s, k, y));
            if queue_at(s, k).count(candidate(g, y)) > 0 {
                if k == top {
                    assert(queue_at(t, top).count(candidate(g, y)) > 0);
                } else {
                    assert(queue_at(t, k) == queue_at(s, k));
                }
            } else {
                lemma_pending_after_descent(g, s, e, k + 1, y);
            }
        }
    }
    assert forall|k: int| 1 <= k <= t.stack.len() implies #[trigger] hangs_on(g, t, k) by {
        assert(hangs_on(g, s, k));
        let (z, x) = choose|z: usize, x: int| #[trigger]
            at_level(s, k - 1, z) && #[trigger] linked(g, z as int, x) && (above(s, k, x)
                || pending(g, s, k, x));
        assert(at_level(t, k - 1, z));
        if above(s, k, x) {
            let n = choose|n: int| k <= n && #[trigger] at_level(s, n, x as usize);
            assert(at_level(t, n, x as usize));
        } else if x == c {
            assert(at_level(t, top, x as usize));
            assert(above(t, k, x));
        } else {
            lemma_pending_after_descent(g, s, e, k, x);
        }
    }
}

/// After a visit no unvisited neighbour of a member above the ceiling of
/// its level lies above that ceiling, and a link between two levels has an
/// end at or below the ceiling of the lower one.
proof fn lemma_descended_apart(g: Seq<Voxel>, s: Traversal, e: VoxelPriority)
    requires
        valid_graph(g),
        consistent(g, s),
        grounded(g, s),
        is_top(s.queue, e),
        !s.visited[e.index as int],
    ensures
        high_members_sealed(g, descended(g, s, e)),
        levels_apart(g, descended(g, s, e)),
{
    let t = descended(g, s, e);
    let top = s.stack.len() as int;
    let c = e.index;
    lemma_visit_frame(g, s, e);
    assert forall|k: int, y: usize, u: int| #[trigger]
        at_level(t, k, y) && g[y as int].value > ceiling(t, k) && #[trigger] linked(
            g,
            y as int,
            u,
        ) && !t.visited[u] implies g[u].value <= ceiling(t, k) by {
        lemma_link_in_range(g, y as int, u);
        if k < top {
            assert(at_level(s, k, y));
            assert(ceiling(t, k) == ceiling(s, k));
        } else {
            assert(at_level(s, top, y));
            assert(held(g, s, top, u));
            assert(s.queue.count(candidate(g, u)) > 0);
        }
    }
    assert forall|k: int, n: int, y: usize, z: usize| #[trigger]
        at_level(t, k, y) && #[trigger] at_level(t, n, z) && k < n && linked(
            g,
            z as int,
            y as int,
        ) implies g[y as int].value <= ceiling(t, k) || g[z as int].value <= ceiling(t, k) by {
        assert(ceiling(t, k) == ceiling(s, k));
        assert(at_level(s, k, y));
        if n == top && z == c {
            assert(linked(g, y as int, c as int));
            if g[y as int].value > ceiling(s, k) {
                assert(g[c as int].value <= ceiling(s, k));
            }
        } else {
            assert(at_level(s, n, z));
        }
    }
}

/// A settled fragment whose spine grows at its end stays settled where it
/// was settled.
proof fn lemma_settled_kept(g: Seq<Voxel>, f: Fragment, grown: Fragment, c: usize)
    requires
        settled(g, f, 0, true),
        f.spine.len() > 0,
        grown.spine == f.spine.push(c),
        grown.first == f.first,
        grown.second == f.second,
    ensures
        forall|j: int|
            0 <= j < f.spine.len() - 1 ==> #[trigger] position_settled(g, grown, j, 0),
        match grown.first {
            Some(child) => settled(g, *child, exit_value(g, grown, 0), false),
            None => true,
        },
        match grown.second {
            Some(child) => settled(g, *child, exit_value(g, grown, 0), false),
            None => true,
        },
{
    assert(grown.spine[0] == f.spine[0]);
    assert(exit_value(g, grown, 0) == exit_value(g, f, 0));
    assert(child_members(grown) == child_members(f));
    assert forall|j: int| 0 <= j < f.spine.len() - 1 implies #[trigger] position_settled(
        g,
        grown,
        j,
        0,
    ) by {
        assert(position_settled(g, f, j, 0));
        assert(grown.spine.take(j + 1) =~= f.spine.take(j + 1));
        assert(enclosed(grown, j) == enclosed(f, j));
        assert(grown.spine[j] == f.spine[j]);
        assert(grown.spine[j + 1] == f.spine[j + 1]);
        assert(next_value(g, grown, j, 0) == next_value(g, f, j, 0));
    }
}

/// After a visit every level is settled, but for the last node of its
/// spine.
proof fn lemma_descended_settled(g: Seq<Voxel>, s: Traversal, e: VoxelPriority)
    requires
        valid_graph(g),
        consistent(g, s),
        levels_bounded(g, s),
        grounded(g, s),
        is_top(s.queue, e),
        !s.visited[e.index as int],
        s.stack.len() > 0 ==> e.value >= s.low_value,
        e.value <= s.current_value,
    ensures
        levels_settled(g, descended(g, s, e)),
{
    let t = descended(g, s, e);
    let top = s.stack.len() as int;
    let c = e.index;
    lemma_visit_frame(g, s, e);
    let f = s.current;
    let grown = t.current;
    assert(fragment_at(s, top) == f);
    assert(fragment_at(t, top) == grown);
    assert(settled(g, f, 0, true));
    assert(settled(g, grown, 0, true)) by {
        if f.spine.len() == 0 {
            assert(fresh(g, s));
            let m = choose|m: int| fresh_at(g, s, m);
            assert(f == Fragment::empty());
            assert(grown.spine.len() == 1);
        } else {
            lemma_settled_kept(g, f, grown, c);
            let last = f.spine.len() - 1;
            let x = f.spine[last];
            assert(!fresh(g, s)) by {
                if fresh(g, s) {
                    let m = choose|m: int| fresh_at(g, s, m);
                }
            }
            assert(g[x as int].value == s.current_value);
            assert(grown.spine.take(last + 1) =~= f.spine);
            assert(enclosed(grown, last) == members(f));
            assert(connected_inside(g, members(fragment_at(s, top))));
            assert(grown.spine[last + 1] == c);
            assert(grown.spine[last] == x);
            assert(next_value(g, grown, last, 0) == g[c as int].value);
            if g[c as int].value < g[x as int].value {
                assert forall|z: usize, y: int|
                    members(f).contains(z) && #[trigger] linked(g, z as int, y) && !members(
                        f,
                    ).contains(y as usize) implies g[y].value <= g[c as int].value by {
                    lemma_link_in_range(g, z as int, y);
                    assert(at_level(s, top, z));
                    if !s.visited[y] {
                        assert(held(g, s, top, y));
                        assert(s.queue.count(candidate(g, y)) > 0);
                    } else {
                        lemma_levels(g, s, y as usize);
                        let k = choose|k: int| #[trigger] at_level(s, k, y as usize);
                        assert(k < top);
                        lemma_ceilings_ordered(s, k, top - 1);
                        assert(ceiling(s, top - 1) == s.low_value);
                        lemma_level_bounded(g, s, top, z);
                    }
                }
            }
            assert(position_settled(g, grown, last, 0));
        }
    }
    assert forall|k: int| 0 <= k <= t.stack.len() implies settled(
        g,
        #[trigger] fragment_at(t, k),
        0,
        true,
    ) by {
        if k < top {
            assert(fragment_at(t, k) == fragment_at(s, k));
        }
    }
}

/// Visiting the highest-ranked candidate keeps what the state holds of
/// the clusters.
pub proof fn lemma_descended_grounded(g: Seq<Voxel>, s: Traversal, e: VoxelPriority)
    requires
        valid_graph(g),
        consistent(g, s),
        levels_bounded(g, s),
        grounded(g, s),
        is_top(s.queue, e),
        !s.visited[e.index as int],
        s.stack.len() > 0 ==> e.value >= s.low_value,
        e.value <= s.current_value,
    ensures
        grounded(g, descended(g, s, e)),
{
    lemma_descended_connected(g, s, e);
    lemma_descended_held(g, s, e);
    lemma_descended_apart(g, s, e);
    lemma_descended_settled(g, s, e);
}

/// What a join changes: the two topmost levels become one, with the
/// members and the candidates of both. Everything else stays.
pub open spec fn join_frame(g: Seq<Voxel>, s: Traversal) -> bool {
    let t = merged(s);
    let top = s.stack.len() as int;
    let base = top - 1;
    &&& t.stack.len() == base
    &&& t.visited == s.visited
    &&& forall|k: int|
        0 <= k < base ==> #[trigger] fragment_at(t, k) == fragment_at(s, k) && queue_at(t, k)
            == queue_at(s, k)
    &&& forall|k: int| 0 <= k <= base ==> #[trigger] ceiling(t, k) == ceiling(s, k)
    &&& forall|k: int| 0 <= k <= base ==> #[trigger] low_at(t, k) == low_at(s, k)
    &&& forall|k: int, i: usize| #[trigger]
        at_level(t, k, i) <==> (k < base && at_level(s, k, i)) || (k == base && (at_level(
            s,
            base,
            i,
        ) || at_level(s, top, i)))
    &&& forall|x: VoxelPriority| #[trigger]
        queue_at(t, base).count(x) > 0 <==> queue_at(s, base).count(x) > 0 || queue_at(
            s,
            top,
        ).count(x) > 0
    &&& forall|u: int| !#[trigger] pending(g, s, top, u)
}

/// A join changes what `join_frame` says.
pub proof fn lemma_join_frame(g: Seq<Voxel>, s: Traversal)
    requires
        valid_graph(g),
        consistent(g, s),
        s.stack.len() > 0,
        forall|x: VoxelPriority| s.queue.count(x) > 0 ==> x.value < s.low_value,
    ensures
        join_frame(g, s),
{
    let t = merged(s);
    let top = s.stack.len() as int;
    let base = top - 1;
    let h = s.stack[base].cluster;
    let shared = h.spine.last();
    let rest = *(t.current.first->Some_0);
    lemma_merged_consistent(g, s);
    assert(fragment_at(s, base) == h);
    assert(fragment_at(s, top) == s.current);
    assert(fragment_at(t, base) == t.current);
    assert(h.spine.len() >= 1);
    assert(h.spine =~= rest.spine.push(shared));
    assert(child_members(rest) == child_members(h));
    assert(members(h) =~= members(rest).push(shared));
    assert(child_members(t.current) == members(rest) + members(s.current));
    assert(members(t.current) =~= members(rest) + members(s.current) + seq![shared]);
    assert forall|k: int, i: usize| #[trigger]
        at_level(t, k, i) <==> (k < base && at_level(s, k, i)) || (k == base && (at_level(
            s,
            base,
            i,
        ) || at_level(s, top, i))) by {
        if 0 <= k < base {
            assert(fragment_at(t, k) == fragment_at(s, k));
        } else if k == base {
            let all = members(t.current);
            let left = members(rest);
            let right = members(s.current);
            let low = members(h);
            if all.contains(i) {
                let at = choose|at: int| 0 <= at < all.len() && all[at] == i;
                if at < left.len() {
                    assert(low[at] == i);
                } else if at < left.len() + right.len() {
                    assert(right[at - left.len()] == i);
                } else {
                    assert(low[left.len() as int] == i);
                }
            }
            if low.contains(i) {
                let at = choose|at: int| 0 <= at < low.len() && low[at] == i;
                if at < left.len() {
                    assert(all[at] == i);
                } else {
                    assert(all[(left.len() + right.len()) as int] == i);
                }
            }
            if right.contains(i) {
                let at = choose|at: int| 0 <= at < right.len() && right[at] == i;
                assert(all[left.len() + at] == i);
            }
        }
    }
    assert forall|u: int| !#[trigger] pending(g, s, top, u) by {
        if pending(g, s, top, u) {
            let q = lemma_covered_witness(g, s, top, u);
            let n = choose|n: int|
                0 <= n && top <= n <= s.stack.len() && (#[trigger] queue_at(s, n)).count(
                    candidate(g, q),
                ) > 0;
            assert(s.queue.count(candidate(g, q)) > 0);
        }
    }
}

/// A fragment that is settled but for its last node, and whose last node
/// is settled for the value it is entered from, is settled.
proof fn lemma_settled_closed(g: Seq<Voxel>, f: Fragment, below: u64)
    requires
        settled(g, f, 0, true),
        f.spine.len() > 0,
        position_settled(g, f, f.spine.len() - 1, below),
    ensures
        settled(g, f, below, false),
{
    assert(exit_value(g, f, below) == exit_value(g, f, 0));
    assert forall|j: int| 0 <= j < f.spine.len() implies #[trigger] position_settled(
        g,
        f,
        j,
        below,
    ) by {
        if j + 1 < f.spine.len() {
            assert(position_settled(g, f, j, 0));
            assert(next_value(g, f, j, below) == next_value(g, f, j, 0));
        }
    }
}

/// A fragment that is settled but for its last node is settled without
/// that node, for the value of that node.
proof fn lemma_settled_trimmed(g: Seq<Voxel>, f: Fragment, rest: Fragment)
    requires
        settled(g, f, 0, true),
        f.spine.len() > 0,
        rest.spine == f.spine.drop_last(),
        rest.first == f.first,
        rest.second == f.second,
    ensures
        settled(g, rest, g[f.spine.last() as int].value, false),
{
    let below = g[f.spine.last() as int].value;
    assert(child_members(rest) == child_members(f));
    assert(exit_value(g, rest, below) == exit_value(g, f, 0)) by {
        if rest.spine.len() > 0 {
            assert(rest.spine[0] == f.spine[0]);
        }
    }
    assert forall|j: int| 0 <= j < rest.spine.len() implies #[trigger] position_settled(
        g,
        rest,
        j,
        below,
    ) by {
        assert(position_settled(g, f, j, 0));
        assert(rest.spine.take(j + 1) =~= f.spine.take(j + 1));
        assert(enclosed(rest, j) == enclosed(f, j));
        assert(rest.spine[j] == f.spine[j]);
        if j + 1 < rest.spine.len() {
            assert(rest.spine[j + 1] == f.spine[j + 1]);
        }
        assert(next_value(g, rest, j, below) == next_value(g, f, j, 0));
    }
}

/// After a join the members of each level hang together, and each
/// unvisited candidate is linked from a member of its level.
proof fn lemma_merged_connected(g: Seq<Voxel>, s: Traversal)
    requires
        valid_graph(g),
        consistent(g, s),
        grounded(g, s),
        s.stack.len() > 0,
        forall|x: VoxelPriority| s.queue.count(x) > 0 ==> x.value < s.low_value,
    ensures
        levels_connected(g, merged(s)),
        entries_adjacent(g, merged(s)),
{
    let t = merged(s);
    let top = s.stack.len() as int;
    let base = top - 1;
    lemma_join_frame(g, s);
    lemma_merged_consistent(g, s);
    let low = members(fragment_at(s, base));
    let high = members(fragment_at(s, top));
    let both = members(fragment_at(t, base));
    assert(connected_inside(g, both)) by {
        assert(hangs_on(g, s, top));
        let (z, c) = choose|z: usize, c: int| #[trigger]
            at_level(s, top - 1, z) && #[trigger] linked(g, z as int, c) && (above(s, top, c)
                || pending(g, s, top, c));
        assert(!pending(g, s, top, c));
        let n = choose|n: int| top <= n && #[trigger] at_level(s, n, c as usize);
        lemma_link_in_range(g, z as int, c);
        assert(linked(g, c as usize as int, z as int));
        assert forall|x: usize| both.contains(x) <==> low.contains(x) || high.contains(x) by {
            assert(at_level(t, base, x) <==> at_level(s, base, x) || at_level(s, top, x));
        }
        lemma_connected_union(g, low, high, both, z, c as usize);
    }
    assert forall|k: int| 0 <= k <= t.stack.len() implies connected_inside(
        g,
        members(#[trigger] fragment_at(t, k)),
    ) by {
        if k < base {
            assert(fragment_at(t, k) == fragment_at(s, k));
        }
    }
    assert forall|k: int, u: int|
        0 <= k <= t.stack.len() && 0 <= u < g.len() && !t.visited[u] && (#[trigger] queue_at(
            t,
            k,
        )).count(#[trigger] candidate(g, u)) > 0 implies (exists|z: usize| #[trigger]
        at_level(t, k, z) && linked(g, z as int, u)) || (k == t.stack.len() && fresh_at(
        g,
        t,
        u,
    )) by {
        if k < base {
            assert(queue_at(t, k) == queue_at(s, k));
            assert(queue_at(s, k).count(candidate(g, u)) > 0);
            let z = choose|z: usize| #[trigger] at_level(s, k, z) && linked(g, z as int, u);
            assert(at_level(t, k, z));
        } else if queue_at(s, base).count(candidate(g, u)) > 0 {
            let z = choose|z: usize| #[trigger] at_level(s, base, z) && linked(g, z as int, u);
            assert(at_level(t, base, z));
        } else {
            assert(queue_at(s, top).count(candidate(g, u)) > 0);
            if fresh_at(g, s, u) {
                assert(fresh(g, s));
            }
            let z = choose|z: usize| #[trigger] at_level(s, top, z) && linked(g, z as int, u);
            assert(at_level(t, base, z));
        }
    }
}

/// A node owed to a level below the two topmost levels before a join is
/// owed to it after the join.
proof fn lemma_pending_after_join(g: Seq<Voxel>, s: Traversal, k: int, u: int)
    requires
        valid_graph(g),
        consistent(g, s),
        s.stack.len() > 0,
        forall|x: VoxelPriority| s.queue.count(x) > 0 ==> x.value < s.low_value,
        0 <= k < s.stack.len(),
        pending(g, s, k, u),
    ensures
        pending(g, merged(s), k, u),
{
    let t = merged(s);
    let top = s.stack.len() as int;
    let base = top - 1;
    lemma_join_frame(g, s);
    assert forall|x: int|
        0 <= x < g.len() && !s.visited[x] && #[trigger] queued_from(g, s, k, x) implies covered_from(
        g,
        t,
        k,
        x,
    ) by {
        let n = choose|n: int|
            0 <= n && k <= n <= s.stack.len() && (#[trigger] queue_at(s, n)).count(
                candidate(g, x),
            ) > 0;
        if n < base {
            assert(queue_at(t, n) == queue_at(s, n));
            assert(queue_at(t, n).count(candidate(g, x)) > 0);
        } else {
            assert(queue_at(t, base).count(candidate(g, x)) > 0);
        }
        assert(queued_from(g, t, k, x));
    }
    lemma_cover_from_transfers(g, s, t, k, k, u);
}

/// After a join each unvisited neighbour of a member of a level is queued
/// at the level or owed to the level above it, and each level but the
/// lowest hangs on the level below it.
proof fn lemma_merged_held(g: Seq<Voxel>, s: Traversal)
    requires
        valid_graph(g),
        consistent(g, s),
        grounded(g, s),
        s.stack.len() > 0,
        forall|x: VoxelPriority| s.queue.count(x) > 0 ==> x.value < s.low_value,
    ensures
        frontier_held(g, merged(s)),
        levels_linked(g, merged(s)),
{
    let t = merged(s);
    let top = s.stack.len() as int;
    let base = top - 1;
    lemma_join_frame(g, s);
    assert forall|k: int, z: usize, y: int| #[trigger]
        at_level(t, k, z) && #[trigger] linked(g, z as int, y) && !t.visited[y] implies held(
        g,
        t,
        k,
        y,
    ) by {
        lemma_link_in_range(g, z as int, y);
        if k < base {
            assert(at_level(s, k, z));
            assert(held(g, s, k, y));
            if queue_at(s, k).count(candidate(g, y)) > 0 {
                assert(queue_at(t, k) == queue_at(s, k));
            } else {
                lemma_pending_after_join(g, s, k + 1, y);
            }
        } else if at_level(s, base, z) {
            assert(held(g, s, base, y));
            assert(!pending(g, s, top, y));
            assert(queue_at(t, base).count(candidate(g, y)) > 0);
        } else {
            assert(at_level(s, top, z));
            assert(held(g, s, top, y));
            assert(queue_at(t, base).count(candidate(g, y)) > 0);
        }
    }
    assert forall|k: int| 1 <= k <= t.stack.len() implies #[trigger] hangs_on(g, t, k) by {
        assert(hangs_on(g, s, k));
        let (z, x) = choose|z: usize, x: int| #[trigger]
            at_level(s, k - 1, z) && #[trigger] linked(g, z as int, x) && (above(s, k, x)
                || pending(g, s, k, x));
        assert(at_level(t, k - 1, z));
        if above(s, k, x) {
            let n = choose|n: int| k <= n && #[trigger] at_level(s, n, x as usize);
            if n < base {
                assert(at_level(t, n, x as usize));
            } else {
                assert(at_level(t, base, x as usize));
            }
            assert(above(t, k, x));
        } else {
            lemma_pending_after_join(g, s, k, x);
        }
    }
}

/// After a join no unvisited neighbour of a member above the ceiling of
/// its level lies above that ceiling, and a link between two levels has an
/// end at or below the ceiling of the lower one.
proof fn lemma_merged_apart(g: Seq<Voxel>, s: Traversal)
    requires
        valid_graph(g),
        consistent(g, s),
        grounded(g, s),
        s.stack.len() > 0,
        forall|x: VoxelPriority| s.queue.count(x) > 0 ==> x.value < s.low_value,
    ensures
        high_members_sealed(g, merged(s)),
        levels_apart(g, merged(s)),
{
    let t = merged(s);
    let top = s.stack.len() as int;
    let base = top - 1;
    lemma_join_frame(g, s);
    assert(ceiling(s, base) == s.low_value);
    assert forall|k: int, y: usize, u: int| #[trigger]
        at_level(t, k, y) && g[y as int].value > ceiling(t, k) && #[trigger] linked(
            g,
            y as int,
            u,
        ) && !t.visited[u] implies g[u].value <= ceiling(t, k) by {
        lemma_link_in_range(g, y as int, u);
        assert(ceiling(t, k) == ceiling(s, k));
        if k < base {
            assert(at_level(s, k, y));
        } else if at_level(s, base, y) {
        } else {
            assert(at_level(s, top, y));
            assert(held(g, s, top, u));
            assert(s.queue.count(candidate(g, u)) > 0);
        }
    }
    assert forall|k: int, n: int, y: usize, z: usize| #[trigger]
        at_level(t, k, y) && #[trigger] at_level(t, n, z) && k < n && linked(
            g,
            z as int,
            y as int,
        ) implies g[y as int].value <= ceiling(t, k) || g[z as int].value <= ceiling(t, k) by {
        assert(ceiling(t, k) == ceiling(s, k));
        assert(at_level(s, k, y));
        if n < base {
            assert(at_level(s, n, z));
        } else if at_level(s, base, z) {
        } else {
            assert(at_level(s, top, z));
        }
    }
}

/// After a join every level is settled, but for the last node of its
/// spine.
proof fn lemma_merged_settled(g: Seq<Voxel>, s: Traversal)
    requires
        valid_graph(g),
        consistent(g, s),
        levels_bounded(g, s),
        grounded(g, s),
        s.stack.len() > 0,
        forall|x: VoxelPriority| s.queue.count(x) > 0 ==> x.value < s.low_value,
    ensures
        levels_settled(g, merged(s)),
{
    let t = merged(s);
    let top = s.stack.len() as int;
    let base = top - 1;
    lemma_join_frame(g, s);
    lemma_merged_consistent(g, s);
    let h = s.stack[base].cluster;
    let cur = s.current;
    let shared = h.spine.last();
    let joined = t.current;
    let rest = *(joined.first->Some_0);
    let below = g[shared as int].value;
    assert(fragment_at(s, base) == h);
    assert(fragment_at(s, top) == cur);
    assert(fragment_at(t, base) == joined);
    assert(settled(g, h, 0, true));
    assert(settled(g, cur, 0, true));
    assert(h.spine.len() >= 1 && below == ceiling(s, base));
    assert(ceiling(s, base) == s.low_value);
    assert(joined.spine[0] == shared);
    assert(exit_value(g, joined, 0) == below);
    lemma_settled_trimmed(g, h, rest);
    assert(!fresh(g, s));
    let last = cur.spine.len() - 1;
    let x = cur.spine[last];
    assert(g[x as int].value == s.current_value);
    assert(position_settled(g, cur, last, below)) by {
        assert(cur.spine.take(last + 1) =~= cur.spine);
        assert(enclosed(cur, last) == members(cur));
        assert(connected_inside(g, members(fragment_at(s, top))));
        assert(next_value(g, cur, last, below) == below);
        if below < g[x as int].value {
            assert forall|z: usize, y: int|
                members(cur).contains(z) && #[trigger] linked(g, z as int, y) && !members(
                    cur,
                ).contains(y as usize) implies g[y].value <= below by {
                lemma_link_in_range(g, z as int, y);
                assert(at_level(s, top, z));
                if !s.visited[y] {
                    assert(held(g, s, top, y));
                    assert(s.queue.count(candidate(g, y)) > 0);
                } else {
                    lemma_levels(g, s, y as usize);
                    let k = choose|k: int| #[trigger] at_level(s, k, y as usize);
                    assert(k < top);
                    lemma_ceilings_ordered(s, k, base);
                    lemma_level_bounded(g, s, top, z);
                }
            }
        }
    }
    lemma_settled_closed(g, cur, below);
    assert(settled(g, joined, 0, true));
    assert forall|k: int| 0 <= k <= t.stack.len() implies settled(
        g,
        #[trigger] fragment_at(t, k),
        0,
        true,
    ) by {
        if k < base {
            assert(fragment_at(t, k) == fragment_at(s, k));
        }
    }
}

/// Joining with the topmost suspended branch keeps what the state holds
/// of the clusters.
pub proof fn lemma_merged_grounded(g: Seq<Voxel>, s: Traversal)
    requires
        valid_graph(g),
        consistent(g, s),
        levels_bounded(g, s),
        grounded(g, s),
        s.stack.len() > 0,
        forall|x: VoxelPriority| s.queue.count(x) > 0 ==> x.value < s.low_value,
    ensures
        grounded(g, merged(s)),
{
    lemma_merged_connected(g, s);
    lemma_merged_held(g, s);
    lemma_merged_apart(g, s);
    lemma_merged_settled(g, s);
}

/// A step keeps what the state holds of the clusters.
pub proof fn lemma_step_grounded(g: Seq<Voxel>, s: Traversal)
    requires
        valid_graph(g),
        consistent(g, s),
        levels_bounded(g, s),
        grounded(g, s),
    ensures
        grounded(g, step(g, s)),
{
    if s.queue.len() > 0 {
        lemma_has_top(s.queue);
        let e = top_of(s.queue);
        if s.visited[e.index as int] {
            lemma_skipped_grounded(g, s, e);
        } else if e.value < s.low_value && s.stack.len() > 0 {
            assert forall|x: VoxelPriority| s.queue.count(x) > 0 implies x.value
                < s.low_value by {
                assert(x.at_most(e));
            }
            lemma_merged_grounded(g, s);
        } else if e.value <= s.current_value {
            lemma_descended_grounded(g, s, e);
        } else {
            lemma_diverted_grounded(g, s, e);
        }
    } else if s.stack.len() > 0 {
        assert forall|x: VoxelPriority| s.queue.count(x) > 0 implies x.value < s.low_value by {
            assert(s.queue.count(x) <= s.queue.len());
        }
        lemma_merged_grounded(g, s);
    }
}

/// After any number of steps the state holds of the clusters what
/// `grounded` says.
pub proof fn lemma_run_grounded(g: Seq<Voxel>, n: nat)
    requires
        valid_graph(g),
    ensures
        grounded(g, run(g, n)),
    decreases n,
{
    if n == 0 {
        lemma_start_grounded(g);
    } else {
        lemma_run_grounded(g, (n - 1) as nat);
        lemma_run_consistent(g, (n - 1) as nat);
        lemma_run_bounded(g, (n - 1) as nat);
        lemma_step_grounded(g, run(g, (n - 1) as nat));
    }
}

/// A link leads to a node of the graph.
pub proof fn lemma_link_in_range(g: Seq<Voxel>, z: int, y: int)
    requires
        valid_graph(g),
        linked(g, z, y),
    ensures
        0 <= z < g.len(),
        0 <= y < g.len(),
{
    let at = choose|at: int|
        0 <= at < g[z].voxel_links@.len() && #[trigger] g[z].voxel_links@[at] == y;
    assert(g[z].voxel_links@[at] < g.len());
}

} // verus!
