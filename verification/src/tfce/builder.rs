//! The cluster-tree builder: one priority-ordered sweep over the graph.

use vstd::multiset::*;
use vstd::prelude::*;

use crate::tfce::ascent::{
    find_max_voxel, hill_top, lemma_steepest_is_higher_neighbor, traverse_max,
};
use crate::tfce::cluster::{Cluster, Fragment};
use crate::tfce::conservation::{lemma_cluster_tree_shape, lemma_size_conservation};
use crate::tfce::consistency::{
    consistent, fragment_at, lemma_start_consistent, queue_at, sorted_spines,
};
use crate::tfce::descent::{
    descended, diverted, finished, is_top, lemma_top_unique, merged, run, skipped, start,
    unvisited_links, Suspended, Traversal,
};

use crate::tfce::progress::{
    cluster_tree, lemma_finished_is_cluster_tree, lemma_finished_stays, lemma_finishes,
    lemma_nodes_counted, lemma_step_progress, lemma_visited_count, steps_to_finish,
};
use crate::voxel::{connected, links_in_range, valid_graph, Voxel};
use crate::voxel_priority::VoxelPriority;
use crate::voxel_queue::VoxelQueue;

verus! {

/// A branch set aside while a separate, higher hill is explored: the
/// fragment built so far, the candidates not yet visited, and the low-water
/// mark that was in force.
pub struct ClusterHunk {
    pub low_value: u64,
    pub voxel_queue: VoxelQueue,
    pub cluster: Cluster,
}

impl View for ClusterHunk {
    type V = Suspended;

    open spec fn view(&self) -> Suspended {
        Suspended { low_value: self.low_value, queue: self.voxel_queue@, cluster: self.cluster@ }
    }
}

/// The mathematical value of the suspension stack.
pub open spec fn suspended_stack(stack: Seq<ClusterHunk>) -> Seq<Suspended> {
    Seq::new(stack.len(), |k: int| stack[k]@)
}

/// Every queue on the suspension stack keeps its representation invariant.
pub open spec fn queues_well_formed(stack: Seq<ClusterHunk>) -> bool {
    forall|k: int| 0 <= k < stack.len() ==> (#[trigger] stack[k]).voxel_queue.wf()
}

/// The top of the hill that `from` lies on: climbs to the steepest
/// neighbour until there is none.
pub fn climb(from: usize, voxels: &Vec<Voxel>) -> (top: usize)
    requires
        from < voxels.len(),
        links_in_range(voxels@),
    ensures
        top == hill_top(voxels@, from as int),
        top < voxels.len(),
{
    let mut max_index: usize = from;
    loop
        invariant
            max_index < voxels.len(),
            links_in_range(voxels@),
            hill_top(voxels@, max_index as int) == hill_top(voxels@, from as int),
        ensures
            max_index == hill_top(voxels@, from as int),
            max_index < voxels.len(),
        decreases u64::MAX - voxels@[max_index as int].value,
    {
        proof {
            lemma_steepest_is_higher_neighbor(voxels@, max_index as int);
        }
        match traverse_max(max_index, voxels) {
            Some(bigger_index) => {
                proof {
                    let links = voxels@[max_index as int].voxel_links@;
                    let at = choose|at: int|
                        0 <= at < links.len() && #[trigger] links[at] == bigger_index as int;
                    assert(voxels@[max_index as int].voxel_links@[at] < voxels.len());
                }
                max_index = bigger_index;
            },
            None => {
                break ;
            },
        }
    }
    max_index
}

/// Queues every neighbour of `index` that is not yet visited.
fn enqueue_neighbors(
    voxels: &Vec<Voxel>,
    index: usize,
    visited: &Vec<bool>,
    voxel_queue: &mut VoxelQueue,
)
    requires
        index < voxels.len(),
        links_in_range(voxels@),
        visited.len() == voxels.len(),
        old(voxel_queue).wf(),
    ensures
        final(voxel_queue).wf(),
        final(voxel_queue)@ == old(voxel_queue)@.add(
            unvisited_links(voxels@, voxels@[index as int].voxel_links@, visited@),
        ),
{
    let links = &voxels[index].voxel_links;
    let mut k: usize = 0;
    assert(links@.take(0) =~= Seq::<usize>::empty());
    assert(voxel_queue@ =~= old(voxel_queue)@.add(
        unvisited_links(voxels@, links@.take(0), visited@),
    ));
    while k < links.len()
        invariant
            0 <= k <= links.len(),
            index < voxels.len(),
            links_in_range(voxels@),
            visited.len() == voxels.len(),
            links@ == voxels@[index as int].voxel_links@,
            voxel_queue.wf(),
            voxel_queue@ == old(voxel_queue)@.add(
                unvisited_links(voxels@, links@.take(k as int), visited@),
            ),
        decreases links.len() - k,
    {
        let ni: usize = links[k];
        assert(voxels@[index as int].voxel_links@[k as int] < voxels.len());
        assert(links@.take(k + 1).drop_last() =~= links@.take(k as int));
        assert(links@.take(k + 1).last() == ni);
        if !visited[ni] {
            voxel_queue.push(VoxelPriority { value: voxels[ni].value, index: ni });
            assert(voxel_queue@ =~= old(voxel_queue)@.add(
                unvisited_links(voxels@, links@.take(k + 1), visited@),
            ));
        }
        k += 1;
    }
    assert(links@.take(k as int) =~= links@);
}

/// Joins a suspended branch with the current fragment: the two queues are
/// united, the smaller moved into the larger, and both fragments become the
/// children of a new one whose spine starts with the last node of the
/// suspended spine.
fn join_branch(other_hunk: ClusterHunk, voxel_queue: &mut VoxelQueue, current_cluster: Cluster) -> (joined: Cluster)
    requires
        old(voxel_queue).wf(),
        other_hunk.voxel_queue.wf(),
        other_hunk.cluster@.spine.len() >= 1,
        other_hunk.cluster@.size >= 1,
        current_cluster@.size + other_hunk.cluster@.size <= usize::MAX,
    ensures
        final(voxel_queue).wf(),
        final(voxel_queue)@ == old(voxel_queue)@.add(other_hunk.voxel_queue@),
        joined@ == (Fragment {
            spine: seq![other_hunk.cluster@.spine.last()],
            size: current_cluster@.size + other_hunk.cluster@.size,
            first: Some(
                Box::new(
                    Fragment {
                        spine: other_hunk.cluster@.spine.drop_last(),
                        size: (other_hunk.cluster@.size - 1) as nat,
                        first: other_hunk.cluster@.first,
                        second: other_hunk.cluster@.second,
                    },
                ),
            ),
            second: Some(Box::new(current_cluster@)),
        }),
{
    let ClusterHunk { low_value: _, voxel_queue: mut other_queue, cluster: other_cluster } =
        other_hunk;
    // merge voxel queues, smaller into bigger
    if voxel_queue.len() < other_queue.len() {
        std::mem::swap(voxel_queue, &mut other_queue);
    }
    voxel_queue.absorb(other_queue);
    assert(final(voxel_queue)@ =~= old(voxel_queue)@.add(other_hunk.voxel_queue@));

    let Cluster {
        voxel_indices: mut spine,
        size: other_size,
        parent_cluster_1: first,
        parent_cluster_2: second,
    } = other_cluster;
    let shared_voxel: usize = spine.pop().unwrap();
    let rest = Cluster {
        voxel_indices: spine,
        size: other_size - 1,
        parent_cluster_1: first,
        parent_cluster_2: second,
    };
    let mut joined_spine: Vec<usize> = Vec::new();
    joined_spine.push(shared_voxel);
    assert(joined_spine@ =~= seq![other_hunk.cluster@.spine.last()]);
    assert(rest@.spine =~= other_hunk.cluster@.spine.drop_last());
    // create new cluster, pointing to two older ones
    Cluster {
        voxel_indices: joined_spine,
        size: current_cluster.size + rest.size + 1,
        parent_cluster_1: Some(Box::new(rest)),
        parent_cluster_2: Some(Box::new(current_cluster)),
    }
}

/// The builder's variables hold the state `s`.
pub open spec fn mirrors(
    s: Traversal,
    visited: Seq<bool>,
    voxel_queue: VoxelQueue,
    cluster_stack: Seq<ClusterHunk>,
    current_value: u64,
    low_value: u64,
    current_cluster: Cluster,
) -> bool {
    &&& s.visited == visited
    &&& s.queue == voxel_queue@
    &&& voxel_queue.wf()
    &&& s.stack == suspended_stack(cluster_stack)
    &&& queues_well_formed(cluster_stack)
    &&& s.current_value == current_value
    &&& s.low_value == low_value
    &&& s.current == current_cluster@
}

/// An unfinished traversal has steps left.
proof fn lemma_steps_left(g: Seq<Voxel>, n: nat)
    requires
        valid_graph(g),
        !finished(run(g, n)),
    ensures
        n < steps_to_finish(g),
{
    lemma_finishes(g);
    if n >= steps_to_finish(g) {
        lemma_finished_stays(g, steps_to_finish(g), n);
    }
}

/// Builds the cluster tree of the graph in one sweep: from the first
/// maximum downwards, setting a branch aside whenever a separate, higher
/// hill comes into view, and joining it again once the sweep has come down
/// to the value at which it was set aside.
pub fn build_cluster_tree(voxels: &Vec<Voxel>) -> (tree: Cluster)
    requires
        valid_graph(voxels@),
    ensures
        tree@ == cluster_tree(voxels@),
        tree@.well_formed(),
        sorted_spines(voxels@, tree@),
        tree@.size == tree@.nodes().len(),
        tree@.size <= voxels.len(),
        forall|i: usize| tree@.nodes().count(i) <= 1,
        forall|i: usize| tree@.nodes().count(i) > 0 ==> i < voxels.len(),
        connected(voxels@) ==> tree@.size == voxels.len(),
        connected(voxels@) ==> forall|i: usize| i < voxels.len() ==> tree@.nodes().count(i) == 1,
{
    let ghost g = voxels@;
    let mut visited: Vec<bool> = Vec::new();
    let mut i: usize = 0;
    while i < voxels.len()
        invariant
            i <= voxels.len(),
            visited.len() == i,
            forall|j: int| 0 <= j < i ==> !visited@[j],
        decreases voxels.len() - i,
    {
        visited.push(false);
        i += 1;
    }

    let mut voxel_queue = VoxelQueue::new();
    let max_voxel_index = find_max_voxel(voxels);
    let max_value: u64 = voxels[max_voxel_index].value;
    voxel_queue.push(VoxelPriority { value: max_value, index: max_voxel_index });

    let mut cluster_stack: Vec<ClusterHunk> = Vec::new();
    let mut current_value: u64 = max_value;
    let mut low_value: u64 = 0;
    let mut current_cluster = Cluster::new();

    let ghost mut s: Traversal = start(g);
    let ghost mut n: nat = 0;
    proof {
        lemma_start_consistent(g);
        assert(s.visited =~= visited@);
        assert(s.queue =~= voxel_queue@);
        assert(s.stack =~= suspended_stack(cluster_stack@));
    }

    while !cluster_stack.is_empty() || !voxel_queue.is_empty()
        invariant
            g == voxels@,
            valid_graph(g),
            s == run(g, n),
            consistent(g, s),
            mirrors(
                s,
                visited@,
                voxel_queue,
                cluster_stack@,
                current_value,
                low_value,
                current_cluster,
            ),
        decreases steps_to_finish(g) - n,
    {
        let ghost n_before = n;
        proof {
            lemma_steps_left(g, n);
        }
        loop
            invariant
                g == voxels@,
                valid_graph(g),
                s == run(g, n),
                n >= n_before,
                n <= steps_to_finish(g),
                !finished(run(g, n_before)),
                consistent(g, s),
                mirrors(
                    s,
                    visited@,
                    voxel_queue,
                    cluster_stack@,
                    current_value,
                    low_value,
                    current_cluster,
                ),
            ensures
                voxel_queue@.len() == 0,
                n > n_before || cluster_stack@.len() > 0,
            decreases steps_to_finish(g) - n,
        {
            let ghost before = voxel_queue@;
            let popped = voxel_queue.pop();
            match popped {
                None => {
                    assert(voxel_queue@ == before);
                    proof {
                        if n == n_before {
                            assert(s.stack.len() > 0);
                        }
                    }
                    break ;
                },
                Some(top) => {
                    let value: u64 = top.value;
                    let index: usize = top.index;
                    proof {
                        assert(is_top(s.queue, top));
                        lemma_top_unique(s.queue, top);
                        assert(queue_at(s, s.stack.len() as int).count(top) > 0);
                        assert(!finished(s)) by {
                            assert(s.queue.count(top) <= s.queue.len());
                        }
                        lemma_steps_left(g, n);
                        lemma_step_progress(g, s);
                        lemma_nodes_counted(g, s);
                        lemma_visited_count(s.visited, index as int);
                    }
                    if !visited[index] {
                        if value < low_value && !cluster_stack.is_empty() {
                            let other_hunk = cluster_stack.pop().unwrap();
                            proof {
                                let last = s.stack.len() - 1;
                                assert(s.stack[last] == other_hunk@);
                                assert(fragment_at(s, last).well_formed());
                                assert(suspended_stack(cluster_stack@) =~= s.stack.drop_last());
                            }
                            let other_low: u64 = other_hunk.low_value;
                            let ghost other_queue = other_hunk.voxel_queue@;
                            current_cluster =
                            join_branch(other_hunk, &mut voxel_queue, current_cluster);
                            // push current voxel onto queue
                            voxel_queue.push(VoxelPriority { value, index });
                            // set low value to older low value
                            current_value = low_value;
                            low_value = other_low;
                            proof {
                                assert(voxel_queue@ =~= s.queue.add(other_queue));
                                s = merged(s);
                                n = n + 1;
                            }
                        } else if value <= current_value {
                            // normal descent, still in the same cluster
                            current_value = value;
                            visited.set(index, true);
                            current_cluster.voxel_indices.push(index);
                            current_cluster.size += 1;
                            enqueue_neighbors(voxels, index, &visited, &mut voxel_queue);
                            proof {
                                s = descended(g, s, top);
                                n = n + 1;
                            }
                        } else {
                            // traversed to other hill
                            cluster_stack.push(
                                ClusterHunk {
                                    low_value: low_value,
                                    voxel_queue: voxel_queue,
                                    cluster: current_cluster,
                                },
                            );
                            voxel_queue = VoxelQueue::new();
                            current_cluster = Cluster::new();
                            low_value = current_value;

                            let max_index = climb(index, voxels);

                            current_value = voxels[max_index].value;
                            voxel_queue.push(
                                VoxelPriority { value: current_value, index: max_index },
                            );
                            proof {
                                let t = diverted(g, s, top);
                                assert(t.stack =~= suspended_stack(cluster_stack@));
                                assert(t.queue =~= voxel_queue@);
                                s = t;
                                n = n + 1;
                            }
                        }
                    } else {
                        proof {
                            s = skipped(s, top);
                            n = n + 1;
                        }
                    }
                },
            }
        }

        match cluster_stack.pop() {
            Some(other_hunk) => {
                proof {
                    let last = s.stack.len() - 1;
                    assert(s.stack[last] == other_hunk@);
                    assert(fragment_at(s, last).well_formed());
                    assert(suspended_stack(cluster_stack@) =~= s.stack.drop_last());
                    assert(!finished(s));
                    lemma_steps_left(g, n);
                    lemma_step_progress(g, s);
                    lemma_nodes_counted(g, s);
                    crate::tfce::progress::lemma_visited_count_bound(s.visited);
                }
                let other_low: u64 = other_hunk.low_value;
                let ghost other_queue = other_hunk.voxel_queue@;
                current_cluster = join_branch(other_hunk, &mut voxel_queue, current_cluster);
                // set low value to older low value
                current_value = low_value;
                low_value = other_low;
                proof {
                    assert(voxel_queue@ =~= s.queue.add(other_queue));
                    s = merged(s);
                    n = n + 1;
                }
            },
            None => {},
        }
    }

    proof {
        assert(finished(s));
        lemma_finished_is_cluster_tree(g, n);
        lemma_cluster_tree_shape(g);
        if connected(g) {
            lemma_size_conservation(g);
        }
    }
    current_cluster
}

} // verus!
