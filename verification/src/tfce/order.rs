//! The cluster tree depends on the adjacency lists and on the order of the
//! values alone.

use vstd::multiset::*;
use vstd::prelude::*;

use crate::tfce::ascent::{
    best_link, hill_top, is_first_max, lemma_best_link, lemma_first_max_unique,
    lemma_steepest_is_higher_neighbor, max_voxel, steepest_neighbor,
};
use crate::tfce::consistency::{
    consistent, fragment_at, lemma_max_voxel, low_at, queue_at,
};
use crate::tfce::descent::{
    candidate, finished, is_top, lemma_has_top, lemma_top_unique, merged, run, start, step, top_of,
    unvisited_links, Traversal,
};
use crate::tfce::progress::{
    cluster_tree, lemma_finished_is_cluster_tree, lemma_finishes, lemma_run_consistent,
    steps_to_finish,
};
use crate::voxel::{linked, valid_graph, Voxel};
use crate::voxel_priority::VoxelPriority;

verus! {

/// The two graphs have the same adjacency lists, and their values stand in
/// the same order.
pub open spec fn same_order(g: Seq<Voxel>, h: Seq<Voxel>) -> bool {
    &&& g.len() == h.len()
    &&& forall|i: int| 0 <= i < g.len() ==> (#[trigger] g[i]).voxel_links@ == h[i].voxel_links@
    &&& forall|i: int, j: int|
        0 <= i < g.len() && 0 <= j < g.len() ==> (g[i].value < g[j].value <==> (#[trigger] h[i]).value
            < (#[trigger] h[j]).value)
}

/// The value `a` stands among the values of `g` as the value `b` stands
/// among the values of `h`.
pub open spec fn alike(g: Seq<Voxel>, h: Seq<Voxel>, a: u64, b: u64) -> bool {
    forall|x: int|
        0 <= x < g.len() ==> (g[x].value < a <==> (#[trigger] h[x]).value < b) && (g[x].value <= a
            <==> h[x].value <= b)
}

/// The state `t` of the traversal of `h` is the state `s` of the
/// traversal of `g`, but for the values.
pub open spec fn mirrored(g: Seq<Voxel>, h: Seq<Voxel>, s: Traversal, t: Traversal) -> bool {
    &&& s.visited == t.visited
    &&& s.stack.len() == t.stack.len()
    &&& forall|k: int| 0 <= k <= s.stack.len() ==> #[trigger] fragment_at(s, k) == fragment_at(t, k)
    &&& forall|k: int, i: int|
        0 <= k <= s.stack.len() && 0 <= i < g.len() ==> (#[trigger] queue_at(s, k)).count(
            #[trigger] candidate(g, i),
        ) == queue_at(t, k).count(candidate(h, i))
    &&& alike(g, h, s.current_value, t.current_value)
    &&& forall|k: int| 1 <= k <= s.stack.len() ==> alike(g, h, #[trigger] low_at(s, k), low_at(t, k))
    &&& low_at(s, 0) == 0
    &&& low_at(t, 0) == 0
}

/// Values in the same order are equal where they are equal, and the value
/// of a node stands in one graph as it stands in the other.
proof fn lemma_same_order(g: Seq<Voxel>, h: Seq<Voxel>, c: int)
    requires
        same_order(g, h),
        0 <= c < g.len(),
    ensures
        alike(g, h, g[c].value, h[c].value),
        forall|i: int|
            0 <= i < g.len() ==> (candidate(g, i).at_most(candidate(g, c)) <==> (
            #[trigger] candidate(h, i)).at_most(candidate(h, c))),
{
    assert forall|x: int| 0 <= x < g.len() implies (g[x].value < g[c].value <==> (
    #[trigger] h[x]).value < h[c].value) && (g[x].value <= g[c].value <==> h[x].value
        <= h[c].value) by {
        assert(g[c].value < g[x].value <==> h[c].value < h[x].value);
    }
    assert forall|i: int| 0 <= i < g.len() implies (candidate(g, i).at_most(candidate(g, c)) <==> (
    #[trigger] candidate(h, i)).at_most(candidate(h, c))) by {
        assert(g[i].value < g[c].value <==> h[i].value < h[c].value);
        assert(g[c].value < g[i].value <==> h[c].value < h[i].value);
    }
}

/// Graphs with the same adjacency lists have the same links.
proof fn lemma_same_links(g: Seq<Voxel>, h: Seq<Voxel>)
    requires
        same_order(g, h),
        valid_graph(g),
    ensures
        valid_graph(h),
        forall|i: int, j: int| linked(g, i, j) <==> linked(h, i, j),
{
    assert forall|i: int, j: int| linked(g, i, j) <==> linked(h, i, j) by {
        if 0 <= i < g.len() {
            assert(g[i].voxel_links@ == h[i].voxel_links@);
        }
    }
    assert forall|i: int, k: int|
        0 <= i < h.len() && 0 <= k < h[i].voxel_links@.len() implies (
    #[trigger] h[i].voxel_links@[k]) < h.len() by {
        assert(g[i].voxel_links@[k] < g.len());
    }
    assert forall|i: int, j: int| #[trigger] linked(h, i, j) implies linked(h, j, i) by {
        assert(linked(g, i, j));
    }
    assert forall|i: int| !#[trigger] linked(h, i, i) by {
        assert(!linked(g, i, i));
    }
}

/// Scanning the same links of two graphs of the same order keeps the same
/// link.
proof fn lemma_order_best_link(
    g: Seq<Voxel>,
    h: Seq<Voxel>,
    links: Seq<usize>,
    floor_g: u64,
    floor_h: u64,
)
    requires
        same_order(g, h),
        alike(g, h, floor_g, floor_h),
        forall|k: int| 0 <= k < links.len() ==> links[k] < g.len(),
    ensures
        best_link(g, links, floor_g) == best_link(h, links, floor_h),
    decreases links.len(),
{
    if links.len() > 0 {
        let head = links.drop_last();
        assert forall|k: int| 0 <= k < head.len() implies head[k] < g.len() by {
            assert(head[k] == links[k]);
        }
        lemma_order_best_link(g, h, head, floor_g, floor_h);
        lemma_best_link(g, head, floor_g);
        let last = links[links.len() - 1];
        assert(last < g.len());
        assert(h[last as int].value > floor_h <==> g[last as int].value > floor_g);
        match best_link(g, head, floor_g) {
            Some(p) => {
                let at = choose|at: int| 0 <= at < head.len() && #[trigger] head[at] == p;
                assert(head[at] == links[at]);
                assert(g[p as int].value < g[last as int].value <==> h[p as int].value
                    < h[last as int].value);
            },
            None => {},
        }
    }
}

/// In two graphs of the same order the climb from a node ends at the same
/// node.
proof fn lemma_order_hill_top(g: Seq<Voxel>, h: Seq<Voxel>, from: int)
    requires
        same_order(g, h),
        valid_graph(g),
        0 <= from < g.len(),
    ensures
        hill_top(g, from) == hill_top(h, from),
        0 <= hill_top(g, from) < g.len(),
    decreases u64::MAX - g[from].value,
{
    lemma_same_links(g, h);
    lemma_same_order(g, h, from);
    let links = g[from].voxel_links@;
    assert forall|k: int| 0 <= k < links.len() implies links[k] < g.len() by {
        assert(g[from].voxel_links@[k] < g.len());
    }
    lemma_order_best_link(g, h, links, g[from].value, h[from].value);
    lemma_steepest_is_higher_neighbor(g, from);
    match steepest_neighbor(g, from) {
        Some(next) => {
            let at = choose|at: int| 0 <= at < links.len() && #[trigger] links[at] == next as int;
            assert(g[from].voxel_links@[at] < g.len());
            lemma_order_hill_top(g, h, next as int);
        },
        None => {},
    }
}

/// The same links give candidates of the same nodes.
proof fn lemma_order_unvisited_links(
    g: Seq<Voxel>,
    h: Seq<Voxel>,
    links: Seq<usize>,
    visited: Seq<bool>,
    i: int,
)
    requires
        g.len() == h.len(),
        g.len() <= usize::MAX,
        0 <= i < g.len(),
        forall|k: int| 0 <= k < links.len() ==> links[k] < g.len(),
    ensures
        unvisited_links(g, links, visited).count(candidate(g, i)) == unvisited_links(
            h,
            links,
            visited,
        ).count(candidate(h, i)),
    decreases links.len(),
{
    if links.len() > 0 {
        let head = links.drop_last();
        assert forall|k: int| 0 <= k < head.len() implies head[k] < g.len() by {
            assert(head[k] == links[k]);
        }
        lemma_order_unvisited_links(g, h, head, visited, i);
        let last = links[links.len() - 1];
        assert(last < g.len());
        assert(candidate(g, last as int) == candidate(g, i) <==> last == i);
        assert(candidate(h, last as int) == candidate(h, i) <==> last == i);
    }
}

/// The traversals of two graphs of the same order start in mirrored
/// states.
proof fn lemma_order_start(g: Seq<Voxel>, h: Seq<Voxel>)
    requires
        same_order(g, h),
        valid_graph(g),
    ensures
        mirrored(g, h, start(g), start(h)),
{
    lemma_same_links(g, h);
    lemma_max_voxel(g);
    lemma_max_voxel(h);
    let m = max_voxel(h);
    assert(is_first_max(g, m)) by {
        assert forall|j: int| 0 <= j < g.len() implies g[j].value <= g[m].value by {
            assert(g[m].value < g[j].value <==> h[m].value < h[j].value);
        }
        assert forall|j: int| 0 <= j < m implies g[j].value < g[m].value by {
            assert(g[j].value < g[m].value <==> h[j].value < h[m].value);
        }
    }
    lemma_first_max_unique(g, max_voxel(g), m);
    lemma_same_order(g, h, m);
    let s = start(g);
    let t = start(h);
    assert(s.visited =~= t.visited);
    assert forall|k: int, i: int|
        0 <= k <= s.stack.len() && 0 <= i < g.len() implies (#[trigger] queue_at(s, k)).count(
        #[trigger] candidate(g, i),
    ) == queue_at(t, k).count(candidate(h, i)) by {
        assert(candidate(g, i) == candidate(g, m) <==> i == m);
        assert(candidate(h, i) == candidate(h, m) <==> i == m);
    }
}

/// The highest-ranked candidates of mirrored states are candidates of the
/// same node.
proof fn lemma_order_top(g: Seq<Voxel>, h: Seq<Voxel>, s: Traversal, t: Traversal) -> (c: int)
    requires
        same_order(g, h),
        valid_graph(g),
        consistent(g, s),
        consistent(h, t),
        mirrored(g, h, s, t),
        s.queue.len() > 0,
    ensures
        0 <= c < g.len(),
        top_of(s.queue) == candidate(g, c),
        top_of(t.queue) == candidate(h, c),
        t.queue.len() > 0,
{
    let top = s.stack.len() as int;
    lemma_has_top(s.queue);
    let e = top_of(s.queue);
    assert(queue_at(s, top).count(e) > 0);
    let c = e.index as int;
    assert(e == candidate(g, c));
    assert(queue_at(t, top).count(candidate(h, c)) > 0);
    assert(t.queue.count(candidate(h, c)) <= t.queue.len());
    lemma_same_order(g, h, c);
    assert(is_top(t.queue, candidate(h, c))) by {
        assert forall|x: VoxelPriority| t.queue.count(x) > 0 implies x.at_most(
            candidate(h, c),
        ) by {
            assert(queue_at(t, top).count(x) > 0);
            let i = x.index as int;
            assert(x == candidate(h, i));
            assert(queue_at(s, top).count(candidate(g, i)) > 0);
            assert(candidate(g, i).at_most(e));
        }
    }
    lemma_top_unique(t.queue, candidate(h, c));
    c
}

/// A step of mirrored states gives mirrored states.
proof fn lemma_order_step(g: Seq<Voxel>, h: Seq<Voxel>, s: Traversal, t: Traversal)
    requires
        same_order(g, h),
        valid_graph(g),
        consistent(g, s),
        consistent(h, t),
        mirrored(g, h, s, t),
    ensures
        mirrored(g, h, step(g, s), step(h, t)),
{
    lemma_same_links(g, h);
    let top = s.stack.len() as int;
    let s2 = step(g, s);
    let t2 = step(h, t);
    assert(s.queue.len() > 0 <==> t.queue.len() > 0) by {
        if s.queue.len() > 0 {
            let c = lemma_order_top(g, h, s, t);
        }
        if t.queue.len() > 0 {
            lemma_has_top(t.queue);
            let e = top_of(t.queue);
            assert(queue_at(t, top).count(e) > 0);
            assert(e == candidate(h, e.index as int));
            assert(queue_at(s, top).count(candidate(g, e.index as int)) > 0);
            assert(s.queue.count(candidate(g, e.index as int)) <= s.queue.len());
        }
    }
    assert(fragment_at(s, top) == fragment_at(t, top));
    if s.queue.len() > 0 {
        let c = lemma_order_top(g, h, s, t);
        let e = candidate(g, c);
        let f = candidate(h, c);
        lemma_same_order(g, h, c);
        if top >= 1 {
            assert(alike(g, h, low_at(s, top), low_at(t, top)));
        }
        if s.visited[c] {
            assert forall|k: int, i: int|
                0 <= k <= s2.stack.len() && 0 <= i < g.len() implies (#[trigger] queue_at(
                s2,
                k,
            )).count(#[trigger] candidate(g, i)) == queue_at(t2, k).count(candidate(h, i)) by {
                assert(queue_at(s, k).count(candidate(g, i)) == queue_at(t, k).count(
                    candidate(h, i),
                ));
                assert(candidate(g, i) == e <==> i == c);
                assert(candidate(h, i) == f <==> i == c);
            }
            assert forall|k: int| 0 <= k <= s2.stack.len() implies #[trigger] fragment_at(s2, k)
                == fragment_at(t2, k) by {
                assert(fragment_at(s, k) == fragment_at(t, k));
            }
            assert forall|k: int| 1 <= k <= s2.stack.len() implies alike(
                g,
                h,
                #[trigger] low_at(s2, k),
                low_at(t2, k),
            ) by {
                assert(alike(g, h, low_at(s, k), low_at(t, k)));
            }
        } else if e.value < s.low_value && s.stack.len() > 0 {
            lemma_order_merged(g, h, s, t);
        } else if e.value <= s.current_value {
            let links = g[c].voxel_links@;
            assert(h[c].voxel_links@ == links);
            assert forall|k: int| 0 <= k < links.len() implies links[k] < g.len() by {
                assert(g[c].voxel_links@[k] < g.len());
            }
            assert forall|k: int, i: int|
                0 <= k <= s2.stack.len() && 0 <= i < g.len() implies (#[trigger] queue_at(
                s2,
                k,
            )).count(#[trigger] candidate(g, i)) == queue_at(t2, k).count(candidate(h, i)) by {
                assert(queue_at(s, k).count(candidate(g, i)) == queue_at(t, k).count(
                    candidate(h, i),
                ));
                assert(candidate(g, i) == e <==> i == c);
                assert(candidate(h, i) == f <==> i == c);
                lemma_order_unvisited_links(g, h, links, s2.visited, i);
            }
            assert forall|k: int| 0 <= k <= s2.stack.len() implies #[trigger] fragment_at(s2, k)
                == fragment_at(t2, k) by {
                assert(fragment_at(s, k) == fragment_at(t, k));
            }
            assert forall|k: int| 1 <= k <= s2.stack.len() implies alike(
                g,
                h,
                #[trigger] low_at(s2, k),
                low_at(t2, k),
            ) by {
                assert(alike(g, h, low_at(s, k), low_at(t, k)));
            }
        } else {
            lemma_order_hill_top(g, h, c);
            let m = hill_top(g, c);
            lemma_same_order(g, h, m);
            assert(s2.stack.len() == top + 1);
            assert forall|k: int, i: int|
                0 <= k <= s2.stack.len() && 0 <= i < g.len() implies (#[trigger] queue_at(
                s2,
                k,
            )).count(#[trigger] candidate(g, i)) == queue_at(t2, k).count(candidate(h, i)) by {
                if k <= top {
                    assert(queue_at(s, k).count(candidate(g, i)) == queue_at(t, k).count(
                        candidate(h, i),
                    ));
                    assert(candidate(g, i) == e <==> i == c);
                    assert(candidate(h, i) == f <==> i == c);
                } else {
                    assert(candidate(g, i) == candidate(g, m) <==> i == m);
                    assert(candidate(h, i) == candidate(h, m) <==> i == m);
                }
            }
            assert forall|k: int| 0 <= k <= s2.stack.len() implies #[trigger] fragment_at(s2, k)
                == fragment_at(t2, k) by {
                if k <= top {
                    assert(fragment_at(s, k) == fragment_at(t, k));
                }
            }
            assert forall|k: int| 1 <= k <= s2.stack.len() implies alike(
                g,
                h,
                #[trigger] low_at(s2, k),
                low_at(t2, k),
            ) by {
                if k <= top {
                    assert(low_at(s2, k) == low_at(s, k) && low_at(t2, k) == low_at(t, k));
                    assert(alike(g, h, low_at(s, k), low_at(t, k)));
                }
            }
            assert(low_at(s2, 0) == low_at(s, 0) && low_at(t2, 0) == low_at(t, 0));
        }
    } else if s.stack.len() > 0 {
        lemma_order_merged(g, h, s, t);
    }
}

/// A join of mirrored states gives mirrored states.
proof fn lemma_order_merged(g: Seq<Voxel>, h: Seq<Voxel>, s: Traversal, t: Traversal)
    requires
        mirrored(g, h, s, t),
        s.stack.len() > 0,
    ensures
        mirrored(g, h, merged(s), merged(t)),
{
    let top = s.stack.len() as int;
    let base = top - 1;
    let s2 = merged(s);
    let t2 = merged(t);
    assert(fragment_at(s, top) == fragment_at(t, top));
    assert(fragment_at(s, base) == fragment_at(t, base));
    assert(alike(g, h, low_at(s, top), low_at(t, top)));
    assert forall|k: int, i: int|
        0 <= k <= s2.stack.len() && 0 <= i < g.len() implies (#[trigger] queue_at(s2, k)).count(
        #[trigger] candidate(g, i),
    ) == queue_at(t2, k).count(candidate(h, i)) by {
        assert(queue_at(s, k).count(candidate(g, i)) == queue_at(t, k).count(candidate(h, i)));
        assert(queue_at(s, top).count(candidate(g, i)) == queue_at(t, top).count(
            candidate(h, i),
        ));
    }
    assert forall|k: int| 0 <= k <= s2.stack.len() implies #[trigger] fragment_at(s2, k)
        == fragment_at(t2, k) by {
        if k < base {
            assert(fragment_at(s, k) == fragment_at(t, k));
        }
    }
    assert forall|k: int| 1 <= k <= s2.stack.len() implies alike(
        g,
        h,
        #[trigger] low_at(s2, k),
        low_at(t2, k),
    ) by {
        assert(low_at(s2, k) == low_at(s, k) && low_at(t2, k) == low_at(t, k));
        assert(alike(g, h, low_at(s, k), low_at(t, k)));
    }
    assert(low_at(s2, 0) == low_at(s, 0) && low_at(t2, 0) == low_at(t, 0));
}

/// After the same number of steps the traversals of two graphs of the same
/// order are in mirrored states.
proof fn lemma_order_run(g: Seq<Voxel>, h: Seq<Voxel>, n: nat)
    requires
        same_order(g, h),
        valid_graph(g),
    ensures
        mirrored(g, h, run(g, n), run(h, n)),
    decreases n,
{
    lemma_same_links(g, h);
    if n == 0 {
        lemma_order_start(g, h);
    } else {
        lemma_order_run(g, h, (n - 1) as nat);
        lemma_run_consistent(g, (n - 1) as nat);
        lemma_run_consistent(h, (n - 1) as nat);
        lemma_order_step(g, h, run(g, (n - 1) as nat), run(h, (n - 1) as nat));
    }
}

/// Only the order of the values counts: two graphs with the same adjacency
/// lists whose values stand in the same order have the same cluster tree.
pub proof fn lemma_cluster_tree_of_same_order(g: Seq<Voxel>, h: Seq<Voxel>)
    requires
        valid_graph(g),
        same_order(g, h),
    ensures
        cluster_tree(g) == cluster_tree(h),
{
    lemma_same_links(g, h);
    lemma_finishes(g);
    let n = steps_to_finish(g);
    let s = run(g, n);
    let t = run(h, n);
    lemma_order_run(g, h, n);
    lemma_run_consistent(g, n);
    lemma_run_consistent(h, n);
    assert(finished(t)) by {
        if t.queue.len() > 0 {
            lemma_has_top(t.queue);
            let e = top_of(t.queue);
            assert(queue_at(t, 0).count(e) > 0);
            assert(e == candidate(h, e.index as int));
            assert(queue_at(s, 0).count(candidate(g, e.index as int)) > 0);
            assert(s.queue.count(candidate(g, e.index as int)) <= s.queue.len());
        }
    }
    lemma_finished_is_cluster_tree(h, n);
    assert(fragment_at(s, 0) == fragment_at(t, 0));
}

/// The two graphs have the same values and the same adjacency lists.
pub open spec fn same_graph(g: Seq<Voxel>, h: Seq<Voxel>) -> bool {
    &&& g.len() == h.len()
    &&& forall|i: int|
        0 <= i < g.len() ==> (#[trigger] g[i]).value == h[i].value && g[i].voxel_links@
            == h[i].voxel_links@
}

/// Determinism: two graphs with the same values and the same adjacency
/// lists have the same cluster tree.
pub proof fn lemma_cluster_tree_of_same_graph(g: Seq<Voxel>, h: Seq<Voxel>)
    requires
        valid_graph(g),
        same_graph(g, h),
    ensures
        cluster_tree(g) == cluster_tree(h),
{
    assert(same_order(g, h)) by {
        assert forall|i: int, j: int| 0 <= i < g.len() && 0 <= j < g.len() implies (g[i].value
            < g[j].value <==> (#[trigger] h[i]).value < (#[trigger] h[j]).value) by {
            assert(g[i].value == h[i].value && g[j].value == h[j].value);
        }
    }
    lemma_cluster_tree_of_same_order(g, h);
}

} // verus!
