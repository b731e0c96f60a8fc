//! What holds of the finished cluster tree.

use vstd::multiset::*;
use vstd::prelude::*;

use crate::tfce::ascent::{lemma_steepest_is_higher_neighbor, max_voxel, steepest_neighbor};
use crate::tfce::consistency::{
    all_nodes, consistent, covered, fragment_at, lemma_max_voxel, queue_at, queued, sorted_spines,
};
use crate::tfce::descent::{candidate, finished, run, start, Traversal};
use crate::tfce::progress::{
    cluster_tree, lemma_count_of_nodes, lemma_finishes, lemma_run_consistent,
    lemma_visited_count_bound, steps_to_finish,
};
use crate::voxel::{connected, is_path, linked, reachable, valid_graph, Voxel};

verus! {

/// With every queue empty no node is covered.
proof fn lemma_nothing_covered(g: Seq<Voxel>, s: Traversal, u: int)
    requires
        valid_graph(g),
        finished(s),
        0 <= u < g.len(),
    ensures
        !covered(g, s, u),
    decreases u64::MAX - g[u].value,
{
    assert(!queued(g, s, u)) by {
        if queued(g, s, u) {
            let k = choose|k: int|
                0 <= k <= s.stack.len() && (#[trigger] queue_at(s, k)).count(candidate(g, u)) > 0;
            assert(s.queue.count(candidate(g, u)) <= s.queue.len());
        }
    }
    lemma_steepest_is_higher_neighbor(g, u);
    match steepest_neighbor(g, u) {
        Some(next) => {
            let at = choose|at: int|
                0 <= at < g[u].voxel_links@.len() && #[trigger] g[u].voxel_links@[at]
                    == next as int;
            assert(g[u].voxel_links@[at] < g.len());
            lemma_nothing_covered(g, s, next as int);
        },
        None => {},
    }
}

/// In a finished state every node that a path leads to from a visited node
/// is visited.
proof fn lemma_path_visited(g: Seq<Voxel>, s: Traversal, p: Seq<int>, k: int)
    requires
        valid_graph(g),
        consistent(g, s),
        finished(s),
        is_path(g, p),
        0 <= k < p.len(),
        0 <= p[0] < g.len(),
        s.visited[p[0]],
    ensures
        0 <= p[k] < g.len(),
        s.visited[p[k]],
    decreases k,
{
    if k > 0 {
        lemma_path_visited(g, s, p, k - 1);
        let w = p[k - 1];
        let u = p[k];
        let j = k - 1;
        assert(linked(g, p[j], p[j + 1]));
        let at = choose|at: int|
            0 <= at < g[w].voxel_links@.len() && #[trigger] g[w].voxel_links@[at] == u;
        assert(g[w].voxel_links@[at] < g.len());
        if !s.visited[u] {
            lemma_nothing_covered(g, s, u);
        }
    }
}

/// The finished traversal of a connected graph has visited every node.
pub proof fn lemma_all_visited(g: Seq<Voxel>, s: Traversal)
    requires
        valid_graph(g),
        connected(g),
        consistent(g, s),
        finished(s),
    ensures
        forall|i: int| 0 <= i < g.len() ==> s.visited[i],
{
    lemma_max_voxel(g);
    let m = max_voxel(g);
    assert(s != start(g)) by {
        assert(start(g).queue.count(candidate(g, m)) > 0);
    }
    assert forall|i: int| 0 <= i < g.len() implies s.visited[i] by {
        assert(reachable(g, m, i));
        let p = choose|p: Seq<int>|
            #[trigger] is_path(g, p) && p.len() >= 1 && p[0] == m && p[p.len() - 1] == i;
        lemma_path_visited(g, s, p, p.len() - 1);
    }
}

/// Sizes in the cluster tree are consistent, along every spine the values
/// do not rise, and no node occurs twice or lies outside the graph.
pub proof fn lemma_cluster_tree_shape(g: Seq<Voxel>)
    requires
        valid_graph(g),
    ensures
        cluster_tree(g).well_formed(),
        sorted_spines(g, cluster_tree(g)),
        cluster_tree(g).size == cluster_tree(g).nodes().len(),
        cluster_tree(g).size <= g.len(),
        forall|i: usize| cluster_tree(g).nodes().count(i) <= 1,
        forall|i: usize| cluster_tree(g).nodes().count(i) > 0 ==> i < g.len(),
        cluster_tree(g).nodes().count(max_voxel(g) as usize) == 1,
{
    lemma_finishes(g);
    let n = steps_to_finish(g);
    let s = run(g, n);
    lemma_run_consistent(g, n);
    lemma_max_voxel(g);
    assert(fragment_at(s, 0) == s.current);
    assert(fragment_at(s, 0).well_formed());
    assert(sorted_spines(g, fragment_at(s, 0)));
    s.current.lemma_size_counts_nodes();
    assert(all_nodes(s) =~= s.current.nodes());
    lemma_count_of_nodes(all_nodes(s), s.visited);
    lemma_visited_count_bound(s.visited);
    assert forall|i: usize| cluster_tree(g).nodes().count(i) <= 1 by {
        assert(all_nodes(s).count(i) <= 1);
    }
    assert forall|i: usize| cluster_tree(g).nodes().count(i) > 0 implies i < g.len() by {
        assert(all_nodes(s).count(i) > 0);
    }
    assert(s != start(g)) by {
        assert(start(g).queue.count(candidate(g, max_voxel(g))) > 0);
    }
    assert(all_nodes(s).count(max_voxel(g) as usize) == 1);
}

/// Size conservation: the cluster tree of a connected graph holds every
/// node exactly once, and the size of its root is the number of nodes.
pub proof fn lemma_size_conservation(g: Seq<Voxel>)
    requires
        valid_graph(g),
        connected(g),
    ensures
        cluster_tree(g).size == g.len(),
        forall|i: usize| i < g.len() ==> cluster_tree(g).nodes().count(i) == 1,
{
    lemma_finishes(g);
    let n = steps_to_finish(g);
    let s = run(g, n);
    lemma_run_consistent(g, n);
    lemma_all_visited(g, s);
    lemma_cluster_tree_shape(g);
    assert(all_nodes(s) =~= s.current.nodes());
    lemma_count_of_nodes(all_nodes(s), s.visited);
    lemma_visited_count_bound(s.visited);
    assert forall|i: usize| i < g.len() implies cluster_tree(g).nodes().count(i) == 1 by {
        assert(all_nodes(s).count(i) == 1);
    }
}

} // verus!
