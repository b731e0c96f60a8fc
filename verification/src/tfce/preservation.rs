//! Each kind of step keeps the builder's state consistent.

use vstd::multiset::*;
use vstd::prelude::*;

use crate::tfce::ascent::{
    hill_top, lemma_steepest_is_higher_neighbor, max_voxel, steepest_neighbor,
};

use crate::tfce::consistency::{
    all_nodes, ceiling, ceilings_rise, consistent, covered, fragment_at, fresh, fresh_at, queue_at,
    lemma_max_voxel, lower_frontier_secured, queued, secured, sorted_spine, sorted_spines,
    stack_nodes,
};
use crate::tfce::descent::{
    candidate, descended, diverted, is_top, merged, skipped, start, unvisited_links, Traversal,
};
use crate::voxel::{linked, links_in_range, valid_graph, Voxel};
use crate::voxel_priority::VoxelPriority;

verus! {

/// No ceiling exceeds the ceiling of the active level.
pub proof fn lemma_ceiling_at_most_current(s: Traversal, k: int)
    requires
        ceilings_rise(s),
        0 <= k <= s.stack.len(),
    ensures
        ceiling(s, k) <= s.current_value,
    decreases s.stack.len() - k,
{
    if k < s.stack.len() {
        lemma_ceiling_at_most_current(s, k + 1);
    }
}

/// A secured node does not exceed the current value.
pub proof fn lemma_secured_at_most_current(g: Seq<Voxel>, s: Traversal, u: int)
    requires
        ceilings_rise(s),
        secured(g, s, u),
    ensures
        g[u].value <= s.current_value,
{
    let k = choose|k: int|
        0 <= k <= s.stack.len() && (#[trigger] queue_at(s, k)).count(candidate(g, u)) > 0
            && g[u].value <= ceiling(s, k);
    lemma_ceiling_at_most_current(s, k);
}

/// Coverage carries over from `s` to `t` when the same nodes are visited and
/// every unvisited node queued in `s` is covered in `t`.
pub proof fn lemma_cover_transfers(g: Seq<Voxel>, s: Traversal, t: Traversal, u: int)
    requires
        links_in_range(g),
        0 <= u < g.len(),
        s.visited == t.visited,
        forall|x: int|
            0 <= x < g.len() && !s.visited[x] && #[trigger] queued(g, s, x) ==> covered(g, t, x),
        covered(g, s, u),
    ensures
        covered(g, t, u),
    decreases u64::MAX - g[u].value,
{
    if !queued(g, s, u) {
        lemma_steepest_is_higher_neighbor(g, u);
        let next = steepest_neighbor(g, u)->Some_0;
        assert(g[u].voxel_links@.contains(next)) by {
            let k = choose|k: int|
                0 <= k < g[u].voxel_links@.len() && #[trigger] g[u].voxel_links@[k] == next as int;
            assert(g[u].voxel_links@[k] == next);
        }
        lemma_cover_transfers(g, s, t, next as int);
    }
}

/// Dropping a visited candidate keeps the state consistent.
pub proof fn lemma_skipped_consistent(g: Seq<Voxel>, s: Traversal, e: VoxelPriority)
    requires
        valid_graph(g),
        consistent(g, s),
        is_top(s.queue, e),
        s.visited[e.index as int],
    ensures
        consistent(g, skipped(s, e)),
{
    let t = skipped(s, e);
    assert(queue_at(s, s.stack.len() as int).count(e) > 0);
    assert forall|k: int| 0 <= k <= s.stack.len() implies ceiling(t, k) == ceiling(s, k)
        && fragment_at(t, k) == fragment_at(s, k) by {}
    assert forall|k: int, x: VoxelPriority|
        0 <= k <= s.stack.len() && x.index != e.index implies queue_at(t, k).count(x) == queue_at(
        s,
        k,
    ).count(x) by {}
    assert(!fresh(g, s)) by {
        if fresh(g, s) {
            let m = choose|m: int| fresh_at(g, s, m);
            assert(e == candidate(g, m));
        }
    }
    assert(!fresh(g, t));
    assert(all_nodes(t) == all_nodes(s));
    assert(s != start(g));
    assert forall|u: int, w: int|
        0 <= u < g.len() && 0 <= w < g.len() && !t.visited[u] && t.visited[w] && #[trigger] linked(
            g,
            w,
            u,
        ) && g[u].value <= g[w].value implies secured(g, t, u) by {
        assert(secured(g, s, u));
        let k = choose|k: int|
            0 <= k <= s.stack.len() && (#[trigger] queue_at(s, k)).count(candidate(g, u)) > 0
                && g[u].value <= ceiling(s, k);
        assert(queue_at(t, k).count(candidate(g, u)) > 0);
    }
    assert forall|x: int|
        0 <= x < g.len() && !s.visited[x] && #[trigger] queued(g, s, x) implies covered(
        g,
        t,
        x,
    ) by {
        let k = choose|k: int|
            0 <= k <= s.stack.len() && (#[trigger] queue_at(s, k)).count(candidate(g, x)) > 0;
        assert(queue_at(t, k).count(candidate(g, x)) > 0);
        assert(queued(g, t, x));
    }
    assert forall|u: int, w: int|
        0 <= u < g.len() && 0 <= w < g.len() && !t.visited[u] && t.visited[w] && #[trigger] linked(
            g,
            w,
            u,
        ) implies covered(g, t, u) by {
        lemma_cover_transfers(g, s, t, u);
    }
}

/// Joining with the topmost suspended branch keeps the state consistent,
/// provided every candidate of the active queue lies below the low-water
/// mark.
pub proof fn lemma_merged_consistent(g: Seq<Voxel>, s: Traversal)
    requires
        valid_graph(g),
        consistent(g, s),
        s.stack.len() > 0,
        forall|x: VoxelPriority| s.queue.count(x) > 0 ==> x.value < s.low_value,
    ensures
        consistent(g, merged(s)),
        !fresh(g, s),
{
    broadcast use vstd::seq_lib::group_to_multiset_ensures;

    let t = merged(s);
    let top = s.stack.len() - 1;
    let h = s.stack[top];
    let shared = h.cluster.spine.last();
    let rest = *(t.current.first->Some_0);
    assert(ceiling(s, top) <= ceiling(s, top + 1));
    assert(!fresh(g, s)) by {
        if fresh(g, s) {
            let m = choose|m: int| fresh_at(g, s, m);
            assert(s.queue.count(candidate(g, m)) > 0);
        }
    }
    assert forall|k: int| 0 <= k <= t.stack.len() implies ceiling(t, k) == ceiling(s, k) by {}
    assert forall|k: int| 0 <= k < t.stack.len() implies queue_at(t, k) == queue_at(s, k)
        && fragment_at(t, k) == fragment_at(s, k) && t.stack[k] == s.stack[k] by {}
    assert(fragment_at(s, top) == h.cluster);
    assert(fragment_at(s, top + 1) == s.current);
    assert(h.cluster.well_formed());
    assert(h.cluster.spine.len() >= 1 && g[shared as int].value == ceiling(s, top));
    // sizes
    assert(rest.well_formed());
    assert(t.current.well_formed());
    assert forall|k: int| 0 <= k <= t.stack.len() implies (#[trigger] fragment_at(
        t,
        k,
    )).well_formed() by {
        if k < t.stack.len() {
            assert(fragment_at(s, k).well_formed());
        }
    }
    // nodes
    assert(h.cluster.spine =~= h.cluster.spine.drop_last().push(shared));
    assert(seq![shared].to_multiset() =~= Multiset::<usize>::empty().insert(shared)) by {
        assert(seq![shared] =~= Seq::<usize>::empty().push(shared));
    }
    assert(rest.nodes().insert(shared) =~= h.cluster.nodes());
    assert(t.current.nodes() =~= h.cluster.nodes().add(s.current.nodes()));
    assert(all_nodes(t) =~= all_nodes(s));
    // spines
    assert(sorted_spines(g, h.cluster));
    assert(sorted_spines(g, s.current));
    assert(sorted_spine(g, rest.spine));
    assert(sorted_spines(g, rest));
    assert(sorted_spines(g, t.current));
    assert forall|k: int| 0 <= k <= t.stack.len() implies sorted_spines(
        g,
        #[trigger] fragment_at(t, k),
    ) by {
        if k < t.stack.len() {
            assert(sorted_spines(g, fragment_at(s, k)));
        }
    }
    assert forall|k: int| 0 <= k < t.stack.len() implies #[trigger] ceiling(t, k) <= ceiling(
        t,
        k + 1,
    ) by {
        assert(ceiling(s, k) <= ceiling(s, k + 1));
    }
    // where a candidate of `s` is found in `t`
    assert forall|k: int, x: VoxelPriority|
        0 <= k <= s.stack.len() && queue_at(s, k).count(x) > 0 implies queue_at(
        t,
        if k <= top {
            k
        } else {
            top
        },
    ).count(x) > 0 by {}
    assert forall|k: int, x: VoxelPriority|
        0 <= k <= t.stack.len() && #[trigger] queue_at(t, k).count(x) > 0 implies x.index < g.len()
        && x == candidate(g, x.index as int) by {
        if k < top {
            assert(queue_at(s, k).count(x) > 0);
        } else if s.queue.count(x) > 0 {
            assert(queue_at(s, top + 1).count(x) > 0);
        } else {
            assert(queue_at(s, top).count(x) > 0);
        }
    }
    assert forall|u: int, w: int|
        0 <= u < g.len() && 0 <= w < g.len() && !t.visited[u] && t.visited[w] && #[trigger] linked(
            g,
            w,
            u,
        ) && g[u].value <= g[w].value implies secured(g, t, u) by {
        assert(secured(g, s, u));
        let k = choose|k: int|
            0 <= k <= s.stack.len() && (#[trigger] queue_at(s, k)).count(candidate(g, u)) > 0
                && g[u].value <= ceiling(s, k);
        if k <= top {
            assert(queue_at(t, k).count(candidate(g, u)) > 0);
        } else {
            assert(queue_at(t, top).count(candidate(g, u)) > 0);
            assert(candidate(g, u).value < s.low_value);
        }
    }
    assert forall|x: int|
        0 <= x < g.len() && !s.visited[x] && #[trigger] queued(g, s, x) implies covered(
        g,
        t,
        x,
    ) by {
        let k = choose|k: int|
            0 <= k <= s.stack.len() && (#[trigger] queue_at(s, k)).count(candidate(g, x)) > 0;
        if k <= top {
            assert(queue_at(t, k).count(candidate(g, x)) > 0);
        } else {
            assert(queue_at(t, top).count(candidate(g, x)) > 0);
        }
        assert(queued(g, t, x));
    }
    assert forall|u: int, w: int|
        0 <= u < g.len() && 0 <= w < g.len() && !t.visited[u] && t.visited[w] && #[trigger] linked(
            g,
            w,
            u,
        ) implies covered(g, t, u) by {
        lemma_cover_transfers(g, s, t, u);
    }
    assert(s != start(g));
    assert(!fresh(g, t)) by {
        if fresh(g, t) {
            let m = choose|m: int| fresh_at(g, t, m);
            assert(t.current.spine.len() == 0);
        }
    }
}

/// What `unvisited_links` holds: exactly the candidates of the unvisited
/// entries of `links`.
pub proof fn lemma_unvisited_links(g: Seq<Voxel>, links: Seq<usize>, visited: Seq<bool>)
    ensures
        forall|j: int|
            0 <= j < links.len() && !visited[links[j] as int] ==> unvisited_links(
                g,
                links,
                visited,
            ).count(candidate(g, #[trigger] links[j] as int)) > 0,
        forall|x: VoxelPriority|
            unvisited_links(g, links, visited).count(x) > 0 ==> exists|j: int|
                0 <= j < links.len() && !visited[links[j] as int] && x == candidate(
                    g,
                    #[trigger] links[j] as int,
                ),
    decreases links.len(),
{
    if links.len() > 0 {
        let head = links.drop_last();
        lemma_unvisited_links(g, head, visited);
        assert forall|j: int| 0 <= j < head.len() implies head[j] == links[j] by {}
        assert forall|x: VoxelPriority|
            unvisited_links(g, links, visited).count(x) > 0 implies exists|j: int|
            0 <= j < links.len() && !visited[links[j] as int] && x == candidate(
                g,
                #[trigger] links[j] as int,
            ) by {
            if unvisited_links(g, head, visited).count(x) > 0 {
                let j = choose|j: int|
                    0 <= j < head.len() && !visited[head[j] as int] && x == candidate(
                        g,
                        #[trigger] head[j] as int,
                    );
                assert(links[j] == head[j]);
            } else {
                assert(x == candidate(g, links[links.len() - 1] as int));
            }
        }
    }
}

/// A node covered before a visit of another node is covered after it.
proof fn lemma_cover_after_descent(g: Seq<Voxel>, s: Traversal, e: VoxelPriority, x: int)
    requires
        valid_graph(g),
        s.visited.len() == g.len(),
        e.index < g.len(),
        e == candidate(g, e.index as int),
        0 <= x < g.len(),
        x != e.index,
        covered(g, s, x),
    ensures
        covered(g, descended(g, s, e), x),
    decreases u64::MAX - g[x].value,
{
    let t = descended(g, s, e);
    let top = s.stack.len() as int;
    let links = g[e.index as int].voxel_links@;
    if queued(g, s, x) {
        let k = choose|k: int|
            0 <= k <= s.stack.len() && (#[trigger] queue_at(s, k)).count(candidate(g, x)) > 0;
        assert(queue_at(t, k).count(candidate(g, x)) > 0);
        assert(queued(g, t, x));
    } else {
        lemma_steepest_is_higher_neighbor(g, x);
        let next = steepest_neighbor(g, x)->Some_0;
        let at = choose|at: int|
            0 <= at < g[x].voxel_links@.len() && #[trigger] g[x].voxel_links@[at] == next as int;
        assert(g[x].voxel_links@[at] < g.len());
        if next == e.index {
            assert(linked(g, x, next as int));
            assert(linked(g, next as int, x));
            let j = choose|j: int| 0 <= j < links.len() && #[trigger] links[j] == x;
            lemma_unvisited_links(g, links, t.visited);
            assert(unvisited_links(g, links, t.visited).count(candidate(g, links[j] as int)) > 0);
            assert(queue_at(t, top).count(candidate(g, x)) > 0);
            assert(queued(g, t, x));
        } else {
            lemma_cover_after_descent(g, s, e, next as int);
        }
    }
}

/// Visiting the highest-ranked candidate keeps the state consistent, when
/// it is unvisited, does not exceed the current value and, with a suspended
/// branch, does not lie below the low-water mark.
pub proof fn lemma_descended_consistent(g: Seq<Voxel>, s: Traversal, e: VoxelPriority)
    requires
        valid_graph(g),
        consistent(g, s),
        is_top(s.queue, e),
        !s.visited[e.index as int],
        s.stack.len() > 0 ==> e.value >= s.low_value,
        e.value <= s.current_value,
    ensures
        consistent(g, descended(g, s, e)),
{
    broadcast use vstd::seq_lib::group_to_multiset_ensures;

    let t = descended(g, s, e);
    let top = s.stack.len() as int;
    let c = e.index;
    let links = g[c as int].voxel_links@;
    let pushed = unvisited_links(g, links, t.visited);
    assert(queue_at(s, top).count(e) > 0);
    assert(e == candidate(g, c as int));
    lemma_unvisited_links(g, links, t.visited);
    assert forall|k: int| 0 <= k < top implies ceiling(t, k) == ceiling(s, k) && queue_at(t, k)
        == queue_at(s, k) && fragment_at(t, k) == fragment_at(s, k) by {}
    // entries
    assert forall|k: int, x: VoxelPriority|
        0 <= k <= t.stack.len() && #[trigger] queue_at(t, k).count(x) > 0 implies x.index < g.len()
        && x == candidate(g, x.index as int) by {
        if k < top {
            assert(queue_at(s, k).count(x) > 0);
        } else if pushed.count(x) > 0 {
            let j = choose|j: int|
                0 <= j < links.len() && !t.visited[links[j] as int] && x == candidate(
                    g,
                    #[trigger] links[j] as int,
                );
            assert(g[c as int].voxel_links@[j] < g.len());
        } else {
            assert(queue_at(s, top).count(x) > 0);
        }
    }
    // sizes
    assert(fragment_at(s, top).well_formed());
    assert(t.current.well_formed());
    assert forall|k: int| 0 <= k <= t.stack.len() implies (#[trigger] fragment_at(
        t,
        k,
    )).well_formed() by {
        if k < top {
            assert(fragment_at(s, k).well_formed());
        }
    }
    // nodes
    assert(t.current.nodes() =~= s.current.nodes().insert(c));
    assert(all_nodes(t) =~= all_nodes(s).insert(c));
    assert forall|i: usize| #[trigger]
        all_nodes(t).count(i) == (if i < g.len() && t.visited[i as int] {
            1nat
        } else {
            0nat
        }) by {
        assert(all_nodes(s).count(i) == (if i < g.len() && s.visited[i as int] {
            1nat
        } else {
            0nat
        }));
    }
    // spines
    assert(sorted_spines(g, fragment_at(s, top)));
    assert(sorted_spine(g, t.current.spine)) by {
        if fresh(g, s) {
            let m = choose|m: int| fresh_at(g, s, m);
        } else {
            let last = s.current.spine.len() - 1;
            assert forall|a: int, b: int| 0 <= a <= b < t.current.spine.len() implies g[t.current.spine[a] as int].value
                >= g[t.current.spine[b] as int].value by {
                if b == last + 1 && a <= last {
                    assert(g[s.current.spine[a] as int].value >= g[s.current.spine[last] as int].value);
                }
            }
        }
    }
    assert(sorted_spines(g, t.current));
    assert forall|k: int| 0 <= k <= t.stack.len() implies sorted_spines(
        g,
        #[trigger] fragment_at(t, k),
    ) by {
        if k < top {
            assert(sorted_spines(g, fragment_at(s, k)));
        }
    }
    assert(t.current.spine.last() == c);
    assert forall|k: int| 0 <= k < t.stack.len() implies #[trigger] ceiling(t, k) <= ceiling(
        t,
        k + 1,
    ) by {
        assert(ceiling(s, k) <= ceiling(s, k + 1));
    }
    assert forall|u: int, w: int|
        0 <= u < g.len() && 0 <= w < g.len() && !t.visited[u] && t.visited[w] && #[trigger] linked(
            g,
            w,
            u,
        ) && g[u].value <= g[w].value implies secured(g, t, u) by {
        if w == c {
            let j = choose|j: int| 0 <= j < links.len() && #[trigger] links[j] == u;
            assert(pushed.count(candidate(g, links[j] as int)) > 0);
            assert(queue_at(t, top).count(candidate(g, u)) > 0);
        } else {
            assert(secured(g, s, u));
            let k = choose|k: int|
                0 <= k <= s.stack.len() && (#[trigger] queue_at(s, k)).count(candidate(g, u)) > 0
                    && g[u].value <= ceiling(s, k);
            if k == top {
                assert(candidate(g, u).at_most(e));
            }
            assert(queue_at(t, k).count(candidate(g, u)) > 0);
        }
    }
    assert forall|u: int, w: int|
        0 <= u < g.len() && 0 <= w < g.len() && !t.visited[u] && t.visited[w] && #[trigger] linked(
            g,
            w,
            u,
        ) implies covered(g, t, u) by {
        if w == c {
            let j = choose|j: int| 0 <= j < links.len() && #[trigger] links[j] == u;
            assert(pushed.count(candidate(g, links[j] as int)) > 0);
            assert(queue_at(t, top).count(candidate(g, u)) > 0);
            assert(queued(g, t, u));
        } else {
            assert(covered(g, s, u));
            lemma_cover_after_descent(g, s, e, u);
        }
    }
    assert(t.visited[max_voxel(g)]) by {
        lemma_max_voxel(g);
        if s == start(g) {
            assert(e == candidate(g, max_voxel(g)));
        }
    }
}

/// The climb from an unvisited node above the current value stays among
/// unvisited nodes, and ends at least as high as it began.
pub proof fn lemma_hill_top_unvisited(g: Seq<Voxel>, s: Traversal, x: int)
    requires
        valid_graph(g),
        s.visited.len() == g.len(),
        ceilings_rise(s),
        lower_frontier_secured(g, s),
        0 <= x < g.len(),
        !s.visited[x],
        g[x].value > s.current_value,
    ensures
        0 <= hill_top(g, x) < g.len(),
        !s.visited[hill_top(g, x)],
        g[hill_top(g, x)].value >= g[x].value,
    decreases u64::MAX - g[x].value,
{
    lemma_steepest_is_higher_neighbor(g, x);
    match steepest_neighbor(g, x) {
        Some(next) => {
            let at = choose|at: int|
                0 <= at < g[x].voxel_links@.len() && #[trigger] g[x].voxel_links@[at]
                    == next as int;
            assert(g[x].voxel_links@[at] < g.len());
            assert(linked(g, x, next as int));
            assert(linked(g, next as int, x));
            if s.visited[next as int] {
                lemma_secured_at_most_current(g, s, x);
            }
            lemma_hill_top_unvisited(g, s, next as int);
        },
        None => {},
    }
}

/// After a diversion from `s` to the hill of `c`, every node on the climb
/// from `c` is covered: the climb ends at the one queued candidate.
proof fn lemma_climb_covered(g: Seq<Voxel>, s: Traversal, t: Traversal, x: int)
    requires
        valid_graph(g),
        s.visited.len() == g.len(),
        ceilings_rise(s),
        lower_frontier_secured(g, s),
        0 <= x < g.len(),
        !s.visited[x],
        g[x].value > s.current_value,
        t.visited == s.visited,
        t.queue.count(candidate(g, hill_top(g, x))) > 0,
    ensures
        covered(g, t, x),
    decreases u64::MAX - g[x].value,
{
    lemma_steepest_is_higher_neighbor(g, x);
    match steepest_neighbor(g, x) {
        Some(next) => {
            let at = choose|at: int|
                0 <= at < g[x].voxel_links@.len() && #[trigger] g[x].voxel_links@[at]
                    == next as int;
            assert(g[x].voxel_links@[at] < g.len());
            assert(linked(g, x, next as int));
            assert(linked(g, next as int, x));
            if s.visited[next as int] {
                lemma_secured_at_most_current(g, s, x);
            }
            lemma_climb_covered(g, s, t, next as int);
        },
        None => {
            assert(queue_at(t, t.stack.len() as int).count(candidate(g, x)) > 0);
            assert(queued(g, t, x));
        },
    }
}

/// Diverting to the hill of the highest-ranked candidate keeps the state
/// consistent, when that candidate is unvisited and exceeds the current
/// value. The traversal then has just arrived on that hill.
pub proof fn lemma_diverted_consistent(g: Seq<Voxel>, s: Traversal, e: VoxelPriority)
    requires
        valid_graph(g),
        consistent(g, s),
        is_top(s.queue, e),
        !s.visited[e.index as int],
        e.value > s.current_value,
    ensures
        consistent(g, diverted(g, s, e)),
        fresh_at(g, diverted(g, s, e), hill_top(g, e.index as int)),
        !fresh(g, s),
{
    broadcast use vstd::seq_lib::group_to_multiset_ensures;

    let t = diverted(g, s, e);
    let top = s.stack.len() as int;
    let c = e.index;
    let m = hill_top(g, c as int);
    assert(queue_at(s, top).count(e) > 0);
    assert(e == candidate(g, c as int));
    lemma_hill_top_unvisited(g, s, c as int);
    assert(!fresh(g, s)) by {
        if fresh(g, s) {
            let m0 = choose|m0: int| fresh_at(g, s, m0);
            assert(e == candidate(g, m0));
        }
    }
    assert(fresh_at(g, t, m));
    assert(t.stack.drop_last() =~= s.stack);
    assert forall|k: int| 0 <= k < top implies ceiling(t, k) == ceiling(s, k) && queue_at(t, k)
        == queue_at(s, k) && fragment_at(t, k) == fragment_at(s, k) && t.stack[k]
        == s.stack[k] by {}
    assert(ceiling(t, top) == ceiling(s, top));
    assert(fragment_at(t, top) == s.current);
    assert(queue_at(t, top) == s.queue.remove(e));
    // entries
    assert forall|k: int, x: VoxelPriority|
        0 <= k <= t.stack.len() && #[trigger] queue_at(t, k).count(x) > 0 implies x.index < g.len()
        && x == candidate(g, x.index as int) by {
        if k <= top {
            assert(queue_at(s, k).count(x) > 0);
        }
    }
    // sizes
    assert forall|k: int| 0 <= k <= t.stack.len() implies (#[trigger] fragment_at(
        t,
        k,
    )).well_formed() by {
        if k <= top {
            assert(fragment_at(s, k).well_formed());
        }
    }
    // nodes
    assert(t.current.nodes() =~= Multiset::<usize>::empty());
    assert(stack_nodes(t.stack) =~= stack_nodes(s.stack).add(s.current.nodes()));
    assert(all_nodes(t) =~= all_nodes(s));
    // spines
    assert forall|k: int| 0 <= k <= t.stack.len() implies sorted_spines(
        g,
        #[trigger] fragment_at(t, k),
    ) by {
        if k <= top {
            assert(sorted_spines(g, fragment_at(s, k)));
        }
    }
    assert forall|k: int| 0 <= k < t.stack.len() implies #[trigger] ceiling(t, k) <= ceiling(
        t,
        k + 1,
    ) by {
        if k < top {
            assert(ceiling(s, k) <= ceiling(s, k + 1));
        }
    }
    assert forall|u: int, w: int|
        0 <= u < g.len() && 0 <= w < g.len() && !t.visited[u] && t.visited[w] && #[trigger] linked(
            g,
            w,
            u,
        ) && g[u].value <= g[w].value implies secured(g, t, u) by {
        assert(secured(g, s, u));
        let k = choose|k: int|
            0 <= k <= s.stack.len() && (#[trigger] queue_at(s, k)).count(candidate(g, u)) > 0
                && g[u].value <= ceiling(s, k);
        lemma_ceiling_at_most_current(s, k);
        assert(queue_at(t, k).count(candidate(g, u)) > 0);
    }
    assert forall|x: int|
        0 <= x < g.len() && !s.visited[x] && #[trigger] queued(g, s, x) implies covered(
        g,
        t,
        x,
    ) by {
        if x == c {
            lemma_climb_covered(g, s, t, x);
        } else {
            let k = choose|k: int|
                0 <= k <= s.stack.len() && (#[trigger] queue_at(s, k)).count(candidate(g, x)) > 0;
            assert(queue_at(t, k).count(candidate(g, x)) > 0);
            assert(queued(g, t, x));
        }
    }
    assert forall|u: int, w: int|
        0 <= u < g.len() && 0 <= w < g.len() && !t.visited[u] && t.visited[w] && #[trigger] linked(
            g,
            w,
            u,
        ) implies covered(g, t, u) by {
        lemma_cover_transfers(g, s, t, u);
    }
    assert(s != start(g)) by {
        lemma_max_voxel(g);
        if s == start(g) {
            assert(e == candidate(g, max_voxel(g)));
        }
    }
}

} // verus!
