//! The builder finishes, and what its result is.

use vstd::multiset::*;
use vstd::prelude::*;

use crate::tfce::cluster::Fragment;
use crate::tfce::consistency::{
    all_nodes, consistent, fresh, fresh_at, lemma_start_consistent, queue_at, queued,
};
use crate::tfce::descent::{
    candidate, finished, lemma_has_top, merged, run, step, top_of, Suspended, Traversal,
};
use crate::tfce::preservation::{
    lemma_descended_consistent, lemma_diverted_consistent, lemma_merged_consistent,
    lemma_skipped_consistent,
};
use crate::voxel::{valid_graph, Voxel};
use crate::voxel_priority::VoxelPriority;

verus! {

/// The number of visited nodes.
pub open spec fn visited_count(visited: Seq<bool>) -> nat
    decreases visited.len(),
{
    if visited.len() == 0 {
        0
    } else {
        visited_count(visited.drop_last()) + if visited.last() {
            1nat
        } else {
            0nat
        }
    }
}

/// The number of candidates in the queues of the suspended branches.
pub open spec fn stack_entries(stack: Seq<Suspended>) -> nat
    decreases stack.len(),
{
    if stack.len() == 0 {
        0
    } else {
        stack_entries(stack.drop_last()) + stack.last().queue.len()
    }
}

/// Twice the number of unvisited nodes, less one when the traversal has
/// just arrived on a hill. No step increases it.
pub open spec fn nodes_left(g: Seq<Voxel>, s: Traversal) -> int {
    2 * (s.visited.len() - visited_count(s.visited)) - if fresh(g, s) {
        1int
    } else {
        0int
    }
}

/// The number of queued candidates plus the number of suspended branches.
/// A step that leaves `nodes_left` unchanged decreases it.
pub open spec fn work_left(s: Traversal) -> nat {
    s.queue.len() + stack_entries(s.stack) + s.stack.len()
}

/// No more nodes are visited than there are, and visiting one more adds one.
pub proof fn lemma_visited_count(visited: Seq<bool>, c: int)
    requires
        0 <= c < visited.len(),
    ensures
        visited_count(visited) <= visited.len(),
        !visited[c] ==> visited_count(visited) < visited.len(),
        !visited[c] ==> visited_count(visited.update(c, true)) == visited_count(visited) + 1,
    decreases visited.len(),
{
    let head = visited.drop_last();
    if c < visited.len() - 1 {
        lemma_visited_count(head, c);
        assert(visited.update(c, true).drop_last() =~= head.update(c, true));
    } else {
        lemma_visited_count_bound(head);
        assert(visited.update(c, true).drop_last() =~= head);
    }
}

/// No more nodes are visited than there are.
pub proof fn lemma_visited_count_bound(visited: Seq<bool>)
    ensures
        visited_count(visited) <= visited.len(),
        (forall|i: int| 0 <= i < visited.len() ==> visited[i]) ==> visited_count(visited)
            == visited.len(),
    decreases visited.len(),
{
    if visited.len() > 0 {
        lemma_visited_count_bound(visited.drop_last());
    }
}

/// A multiset that holds each visited node once, and nothing else, has as
/// many elements as there are visited nodes.
pub proof fn lemma_count_of_nodes(nodes: Multiset<usize>, visited: Seq<bool>)
    requires
        visited.len() <= usize::MAX,
        forall|i: usize| #[trigger]
            nodes.count(i) == (if i < visited.len() && visited[i as int] {
                1nat
            } else {
                0nat
            }),
    ensures
        nodes.len() == visited_count(visited),
    decreases visited.len(),
{
    if visited.len() == 0 {
        assert(nodes =~= Multiset::<usize>::empty());
    } else {
        let last = (visited.len() - 1) as usize;
        let head = visited.drop_last();
        if visited.last() {
            let rest = nodes.remove(last);
            assert(nodes.count(last) == 1);
            assert(nodes =~= rest.insert(last));
            assert forall|i: usize| #[trigger]
                rest.count(i) == (if i < head.len() && head[i as int] {
                    1nat
                } else {
                    0nat
                }) by {
                assert(nodes.count(i) == (if i < visited.len() && visited[i as int] {
                    1nat
                } else {
                    0nat
                }));
            }
            lemma_count_of_nodes(rest, head);
        } else {
            assert forall|i: usize| #[trigger]
                nodes.count(i) == (if i < head.len() && head[i as int] {
                    1nat
                } else {
                    0nat
                }) by {
                assert(nodes.count(i) == (if i < visited.len() && visited[i as int] {
                    1nat
                } else {
                    0nat
                }));
            }
            lemma_count_of_nodes(nodes, head);
        }
    }
}

/// In a consistent state the fragments hold as many nodes as are visited.
pub proof fn lemma_nodes_counted(g: Seq<Voxel>, s: Traversal)
    requires
        valid_graph(g),
        consistent(g, s),
    ensures
        all_nodes(s).len() == visited_count(s.visited),
        s.current.size == s.current.nodes().len(),
        s.stack.len() > 0 ==> s.current.size + s.stack.last().cluster.size <= visited_count(
            s.visited,
        ),
        s.current.size <= visited_count(s.visited),
{
    lemma_count_of_nodes(all_nodes(s), s.visited);
    assert(crate::tfce::consistency::fragment_at(s, s.stack.len() as int).well_formed());
    s.current.lemma_size_counts_nodes();
    if s.stack.len() > 0 {
        let top = s.stack.len() - 1;
        assert(crate::tfce::consistency::fragment_at(s, top).well_formed());
        s.stack.last().cluster.lemma_size_counts_nodes();
    }
}

/// Some node is unvisited when the traversal has just arrived on a hill.
pub proof fn lemma_nodes_left_not_negative(g: Seq<Voxel>, s: Traversal)
    requires
        s.visited.len() == g.len(),
    ensures
        nodes_left(g, s) >= 0,
{
    lemma_visited_count_bound(s.visited);
    if fresh(g, s) {
        let m = choose|m: int| fresh_at(g, s, m);
        lemma_visited_count(s.visited, m);
    }
}

/// Every step but the last brings the traversal nearer to its end.
pub proof fn lemma_step_progress(g: Seq<Voxel>, s: Traversal)
    requires
        valid_graph(g),
        consistent(g, s),
        !finished(s),
    ensures
        consistent(g, step(g, s)),
        nodes_left(g, step(g, s)) >= 0,
        nodes_left(g, step(g, s)) < nodes_left(g, s) || (nodes_left(g, step(g, s)) == nodes_left(
            g,
            s,
        ) && 0 <= work_left(step(g, s)) < work_left(s)),
{
    let t = step(g, s);
    lemma_nodes_left_not_negative(g, s);
    if s.queue.len() > 0 {
        lemma_has_top(s.queue);
        let e = top_of(s.queue);
        assert(queue_at(s, s.stack.len() as int).count(e) > 0);
        assert(s.queue =~= s.queue.remove(e).insert(e));
        if s.visited[e.index as int] {
            lemma_skipped_consistent(g, s, e);
            assert(!fresh(g, s)) by {
                if fresh(g, s) {
                    let m = choose|m: int| fresh_at(g, s, m);
                    assert(e == candidate(g, m));
                }
            }
            assert(!fresh(g, t)) by {
                if fresh(g, t) {
                    let m = choose|m: int| fresh_at(g, t, m);
                }
            }
        } else if e.value < s.low_value && s.stack.len() > 0 {
            assert forall|x: VoxelPriority| s.queue.count(x) > 0 implies x.value
                < s.low_value by {
                assert(x.at_most(e));
            }
            lemma_merged_consistent(g, s);
            lemma_merged_work(s);
            assert(!fresh(g, t)) by {
                if fresh(g, t) {
                    let m = choose|m: int| fresh_at(g, t, m);
                }
            }
        } else if e.value <= s.current_value {
            lemma_descended_consistent(g, s, e);
            lemma_visited_count(s.visited, e.index as int);
        } else {
            lemma_diverted_consistent(g, s, e);
        }
    } else {
        assert forall|x: VoxelPriority| s.queue.count(x) > 0 implies x.value < s.low_value by {
            assert(s.queue.count(x) <= s.queue.len());
        }
        lemma_merged_consistent(g, s);
        lemma_merged_work(s);
        assert(!fresh(g, t)) by {
            if fresh(g, t) {
                let m = choose|m: int| fresh_at(g, t, m);
            }
        }
    }
    lemma_nodes_left_not_negative(g, t);
}

/// A join leaves the number of queued candidates as it is and takes one
/// branch off the stack.
proof fn lemma_merged_work(s: Traversal)
    requires
        s.stack.len() > 0,
    ensures
        work_left(merged(s)) == work_left(s) - 1,
{
}

/// The state after any number of steps is consistent.
pub proof fn lemma_run_consistent(g: Seq<Voxel>, n: nat)
    requires
        valid_graph(g),
    ensures
        consistent(g, run(g, n)),
    decreases n,
{
    if n == 0 {
        lemma_start_consistent(g);
    } else {
        lemma_run_consistent(g, (n - 1) as nat);
        let s = run(g, (n - 1) as nat);
        if !finished(s) {
            lemma_step_progress(g, s);
        }
    }
}

/// From the state after `n` steps the traversal reaches its end.
proof fn lemma_finishes_from(g: Seq<Voxel>, n: nat) -> (m: nat)
    requires
        valid_graph(g),
    ensures
        m >= n,
        finished(run(g, m)),
    decreases nodes_left(g, run(g, n)), work_left(run(g, n)),
{
    let s = run(g, n);
    lemma_run_consistent(g, n);
    if finished(s) {
        n
    } else {
        lemma_step_progress(g, s);
        let next: nat = n + 1;
        assert(run(g, next) == step(g, s));
        lemma_finishes_from(g, next)
    }
}

/// The number of steps after which the traversal has finished.
pub open spec fn steps_to_finish(g: Seq<Voxel>) -> nat {
    choose|n: nat| finished(run(g, n))
}

/// The cluster tree of the graph: the fragment that is current when the
/// traversal has finished.
pub open spec fn cluster_tree(g: Seq<Voxel>) -> Fragment {
    run(g, steps_to_finish(g)).current
}

/// The traversal of a valid graph finishes.
pub proof fn lemma_finishes(g: Seq<Voxel>)
    requires
        valid_graph(g),
    ensures
        finished(run(g, steps_to_finish(g))),
{
    let m = lemma_finishes_from(g, 0);
}

/// Once finished, the state does not change.
pub proof fn lemma_finished_stays(g: Seq<Voxel>, n: nat, m: nat)
    requires
        finished(run(g, n)),
        n <= m,
    ensures
        run(g, m) == run(g, n),
    decreases m,
{
    if n < m {
        lemma_finished_stays(g, n, (m - 1) as nat);
    }
}

/// Whatever number of steps the traversal has finished after, the fragment
/// then current is the cluster tree.
pub proof fn lemma_finished_is_cluster_tree(g: Seq<Voxel>, n: nat)
    requires
        finished(run(g, n)),
    ensures
        run(g, n).current == cluster_tree(g),
        run(g, n) == run(g, steps_to_finish(g)),
{
    let m = steps_to_finish(g);
    if n <= m {
        lemma_finished_stays(g, n, m);
    } else {
        lemma_finished_stays(g, m, n);
    }
}

} // verus!
