//! The sizes of the integration plan are the sizes of the clusters at the
//! thresholds: the exact transform integrates what the threshold sweep
//! sums up.

use vstd::prelude::*;

use crate::tfce::approximate_tfce::{are_components, joined_within, listed, live};
use crate::tfce::cluster::Fragment;
use crate::tfce::conservation::lemma_cluster_tree_shape;
use crate::tfce::consistency::{fragment_at, fresh, fresh_at, sorted_spine, sorted_spines};
use crate::tfce::descent::{candidate, finished, run};
use crate::tfce::grounding::{held, next_value, position_settled, settled};
use crate::tfce::grounding_steps::{lemma_link_in_range, lemma_run_grounded};
use crate::tfce::heap_order::{
    bounded_below, exit_value, lemma_cluster_tree_bounded, lemma_run_bounded,
};
use crate::tfce::integrator::{fill_plan, lemma_spine_steps, spine_exit, spine_steps, FillStep};
use crate::tfce::members::{
    at_level, child_members, enclosed, lemma_enclosed_bounded, lemma_enclosed_len,
    lemma_levels, lemma_members_are_nodes, members,
};
use crate::tfce::progress::{
    cluster_tree, lemma_finishes, lemma_run_consistent, steps_to_finish,
};

use crate::tfce::threshold::{joined_above, lemma_joined_chained, lemma_sealed_is_cluster};
use crate::voxel::{is_path, linked, symmetric, valid_graph, Voxel};

verus! {

/// The lower end of the band of thresholds that a step integrates over:
/// the value of the node it continues from, or the lowest value of all.
pub open spec fn band_floor(g: Seq<Voxel>, step: FillStep) -> u64 {
    match step.previous {
        Some(p) => g[p as int].value,
        None => 0,
    }
}

/// The threshold lies in the band of the step: above the lower end, and
/// not above the value of the step's node.
pub open spec fn in_band(g: Seq<Voxel>, step: FillStep, min_value: u64) -> bool {
    band_floor(g, step) < min_value <= g[step.voxel as int].value
}

/// `set` lists, each once, the nodes that `x` is joined to through nodes
/// at or above the threshold: the cluster of `x` at the threshold.
pub open spec fn is_cluster_of(g: Seq<Voxel>, min_value: u64, x: usize, set: Seq<usize>) -> bool {
    &&& set.no_duplicates()
    &&& forall|y: usize| #[trigger] set.contains(y) <==> joined_above(g, min_value, x as int, y as int)
}

/// At every threshold in its band, the cluster of the step's node has the
/// size that the step gives it.
pub open spec fn step_exact(g: Seq<Voxel>, step: FillStep) -> bool {
    forall|min_value: u64| #[trigger]
        in_band(g, step, min_value) ==> exists|set: Seq<usize>| #[trigger]
            is_cluster_of(g, min_value, step.voxel, set) && set.len() == step.size
}

/// When the traversal has finished, the cluster tree is settled throughout.
pub proof fn lemma_cluster_tree_settled(g: Seq<Voxel>)
    requires
        valid_graph(g),
    ensures
        settled(g, cluster_tree(g), 0, false),
        members(cluster_tree(g)).no_duplicates(),
        forall|i: usize| members(cluster_tree(g)).contains(i) ==> i < g.len(),
{
    broadcast use vstd::seq_lib::group_to_multiset_ensures;

    lemma_finishes(g);
    let n = steps_to_finish(g);
    let s = run(g, n);
    lemma_run_consistent(g, n);
    lemma_run_grounded(g, n);
    lemma_run_bounded(g, n);
    lemma_cluster_tree_shape(g);
    let f = s.current;
    assert(fragment_at(s, 0) == f);
    assert(settled(g, f, 0, true));
    lemma_members_are_nodes(f);
    members(f).lemma_multiset_has_no_duplicates_conv();
    assert forall|i: usize| members(f).contains(i) implies i < g.len() by {
        assert(f.nodes().count(i) > 0);
    }
    assert(!fresh(g, s)) by {
        if fresh(g, s) {
            let m = choose|m: int| fresh_at(g, s, m);
            assert(s.queue.count(candidate(g, m)) > 0);
        }
    }
    let last = f.spine.len() - 1;
    assert(position_settled(g, f, last, 0)) by {
        assert(f.spine.take(last + 1) =~= f.spine);
        assert(enclosed(f, last) == members(f));
        assert forall|z: usize, y: int|
            members(f).contains(z) && #[trigger] linked(g, z as int, y) && !members(f).contains(
                y as usize,
            ) implies g[y].value <= 0 by {
            lemma_link_in_range(g, z as int, y);
            assert(at_level(s, 0, z));
            if !s.visited[y] {
                assert(held(g, s, 0, y));
                assert(s.queue.count(candidate(g, y)) <= s.queue.len());
            } else {
                lemma_levels(g, s, y as usize);
                let k = choose|k: int| #[trigger] at_level(s, k, y as usize);
            }
        }
    }
}

/// A node of the spine that is settled stands, at every threshold in its
/// band, for the cluster of the node.
proof fn lemma_position_exact(g: Seq<Voxel>, f: Fragment, j: int, below: u64, bound: u64, min_value: u64)
    requires
        g.len() <= usize::MAX,
        f.well_formed(),
        sorted_spine(g, f.spine),
        bounded_below(g, f, bound),
        members(f).no_duplicates(),
        forall|i: usize| members(f).contains(i) ==> i < g.len(),
        0 <= j < f.spine.len(),
        position_settled(g, f, j, below),
        next_value(g, f, j, below) < min_value <= g[f.spine[j] as int].value,
    ensures
        is_cluster_of(g, min_value, f.spine[j], enclosed(f, j)),
        enclosed(f, j).len() == f.size - (f.spine.len() - 1 - j),
{
    let set = enclosed(f, j);
    let x = f.spine[j];
    let kids = child_members(f);
    lemma_enclosed_len(f, j);
    assert(set =~= members(f).take(kids.len() + j + 1));
    assert(set.no_duplicates());
    assert(set[kids.len() + j] == x);
    assert forall|i: usize| set.contains(i) implies live(g, min_value, i as int) by {
        lemma_enclosed_bounded(g, f, bound, j, i);
    }
    assert forall|y: usize| #[trigger]
        set.contains(y) <==> joined_above(g, min_value, x as int, y as int) by {
        lemma_sealed_is_cluster(g, set, min_value, next_value(g, f, j, below), x, y as int);
        if set.contains(y) {
            lemma_enclosed_bounded(g, f, bound, j, y);
        }
    }
}

/// Every step of the plan of a settled subtree is exact.
pub proof fn lemma_plan_exact(
    g: Seq<Voxel>,
    f: Fragment,
    entry: Option<usize>,
    below: u64,
    bound: u64,
)
    requires
        g.len() <= usize::MAX,
        f.well_formed(),
        f.size <= usize::MAX,
        sorted_spines(g, f),
        bounded_below(g, f, bound),
        settled(g, f, below, false),
        members(f).no_duplicates(),
        forall|i: usize| members(f).contains(i) ==> i < g.len(),
        below == match entry {
            Some(p) => g[p as int].value,
            None => 0,
        },
    ensures
        forall|k: int|
            0 <= k < fill_plan(f, entry).len() ==> step_exact(g, #[trigger] fill_plan(f, entry)[k]),
    decreases f,
{
    let own = spine_steps(f.spine, f.size as int, entry);
    let exit = spine_exit(f.spine, entry);
    let len = f.spine.len() as int;
    lemma_spine_steps(f.spine, f.size as int, entry);
    let second: Seq<FillStep> = match f.second {
        Some(c) => fill_plan(*c, exit),
        None => Seq::empty(),
    };
    let first: Seq<FillStep> = match f.first {
        Some(c) => fill_plan(*c, exit),
        None => Seq::empty(),
    };
    let a: Seq<usize> = match f.first {
        Some(c) => members(*c),
        None => Seq::empty(),
    };
    let b: Seq<usize> = match f.second {
        Some(c) => members(*c),
        None => Seq::empty(),
    };
    assert(child_members(f) == a + b);
    assert(members(f) == a + b + f.spine);
    let exit_below = exit_value(g, f, below);
    let exit_bound = exit_value(g, f, bound);
    assert(exit_below == match exit {
        Some(p) => g[p as int].value,
        None => 0,
    });
    match f.first {
        Some(c) => {
            assert(a =~= members(f).subrange(0, a.len() as int));
            assert forall|i: usize| a.contains(i) implies i < g.len() by {
                let at = choose|at: int| 0 <= at < a.len() && a[at] == i;
                assert(members(f)[at] == i);
                assert(members(f).contains(i));
            }
            lemma_plan_exact(g, *c, exit, exit_below, exit_bound);
        },
        None => {},
    }
    match f.second {
        Some(c) => {
            assert(b =~= members(f).subrange(a.len() as int, (a.len() + b.len()) as int));
            assert forall|i: usize| b.contains(i) implies i < g.len() by {
                let at = choose|at: int| 0 <= at < b.len() && b[at] == i;
                assert(members(f)[a.len() + at] == i);
                assert(members(f).contains(i));
            }
            lemma_plan_exact(g, *c, exit, exit_below, exit_bound);
        },
        None => {},
    }
    let plan = fill_plan(f, entry);
    assert(plan == own + second + first);
    assert forall|k: int| 0 <= k < plan.len() implies step_exact(g, #[trigger] plan[k]) by {
        if k < own.len() {
            let j = len - 1 - k;
            let step = own[k];
            assert(plan[k] == step);
            assert(step.voxel == f.spine[j]);
            assert(band_floor(g, step) == next_value(g, f, j, below));
            assert(position_settled(g, f, j, below));
            assert forall|min_value: u64| #[trigger] in_band(g, step, min_value) implies exists|
                set: Seq<usize>,
            | #[trigger]
                is_cluster_of(g, min_value, step.voxel, set) && set.len() == step.size by {
                lemma_position_exact(g, f, j, below, bound, min_value);
                assert(is_cluster_of(g, min_value, step.voxel, enclosed(f, j)));
            }
        } else if k < own.len() + second.len() {
            assert(plan[k] == second[k - own.len()]);
        } else {
            assert(plan[k] == first[k - own.len() - second.len()]);
        }
    }
}

/// Exactness: every step of the plan of the cluster tree gives its node,
/// at every threshold in the step's band, the size of the node's cluster at
/// that threshold.
pub proof fn lemma_tree_plan_exact(g: Seq<Voxel>)
    requires
        valid_graph(g),
    ensures
        forall|k: int|
            0 <= k < fill_plan(cluster_tree(g), None).len() ==> step_exact(
                g,
                #[trigger] fill_plan(cluster_tree(g), None)[k],
            ),
{
    lemma_cluster_tree_shape(g);
    lemma_cluster_tree_bounded(g);
    lemma_cluster_tree_settled(g);
    lemma_plan_exact(g, cluster_tree(g), None, 0, 0);
}

/// In a symmetric graph a path inside a set can be walked backwards.
proof fn lemma_joined_back(g: Seq<Voxel>, set: Seq<usize>, a: int, b: int)
    requires
        symmetric(g),
        joined_within(g, set, a, b),
    ensures
        joined_within(g, set, b, a),
{
    let p = choose|p: Seq<int>|
        {
            &&& #[trigger] is_path(g, p)
            &&& p.len() >= 1
            &&& p[0] == a
            &&& p[p.len() - 1] == b
            &&& forall|k: int| 0 <= k < p.len() ==> set.contains(p[k] as usize)
        };
    let r = p.reverse();
    assert(is_path(g, r)) by {
        assert forall|k: int| 0 <= k < r.len() - 1 implies #[trigger] linked(g, r[k], r[k + 1]) by {
            let j = p.len() - 2 - k;
            assert(linked(g, p[j], p[j + 1]));
        }
    }
    assert forall|k: int| 0 <= k < r.len() implies set.contains(r[k] as usize) by {
        assert(r[k] == p[p.len() - 1 - k]);
    }
    assert(r[0] == b && r[r.len() - 1] == a);
}

/// A path through nodes at or above the threshold that begins in a
/// component stays in the component.
proof fn lemma_path_in_component(
    g: Seq<Voxel>,
    min_value: u64,
    clusters: Seq<Seq<usize>>,
    c: int,
    p: Seq<int>,
    k: int,
)
    requires
        g.len() <= usize::MAX,
        are_components(g, min_value, clusters),
        0 <= c < clusters.len(),
        is_path(g, p),
        0 <= k < p.len(),
        0 <= p[0] <= usize::MAX,
        clusters[c].contains(p[0] as usize),
        forall|n: int| 0 <= n < p.len() ==> live(g, min_value, p[n]),
    ensures
        clusters[c].contains(p[k] as usize),
    decreases k,
{
    if k > 0 {
        lemma_path_in_component(g, min_value, clusters, c, p, k - 1);
        let j = k - 1;
        assert(linked(g, p[j], p[j + 1]));
        assert(live(g, min_value, p[j]));
        assert(live(g, min_value, p[k]));
        let at = choose|at: int| 0 <= at < clusters[c].len() && clusters[c][at] == p[j] as usize;
        assert(linked(g, clusters[c][at] as int, p[k]));
    }
}

/// A component of the nodes at or above a threshold is the cluster of
/// each of its nodes at that threshold.
pub proof fn lemma_component_is_cluster(
    g: Seq<Voxel>,
    min_value: u64,
    clusters: Seq<Seq<usize>>,
    c: int,
    i: int,
)
    requires
        g.len() <= usize::MAX,
        symmetric(g),
        are_components(g, min_value, clusters),
        0 <= c < clusters.len(),
        0 <= i < clusters[c].len(),
    ensures
        is_cluster_of(g, min_value, clusters[c][i], clusters[c]),
{
    let set = clusters[c];
    let x = set[i];
    let first = set[0];
    assert(set.no_duplicates()) by {
        assert forall|a: int, b: int| 0 <= a < set.len() && 0 <= b < set.len() && a != b implies set[a]
            != set[b] by {
            assert(clusters[c][a] != clusters[c][b]);
        }
    }
    assert(joined_within(g, set, first as int, x as int));
    lemma_joined_back(g, set, first as int, x as int);
    assert forall|y: usize| #[trigger]
        set.contains(y) <==> joined_above(g, min_value, x as int, y as int) by {
        if set.contains(y) {
            let at = choose|at: int| 0 <= at < set.len() && set[at] == y;
            assert(joined_within(g, clusters[c], clusters[c][0] as int, clusters[c][at] as int));
            lemma_joined_chained(g, set, x as int, first as int, y as int);
            let p = choose|p: Seq<int>|
                {
                    &&& #[trigger] is_path(g, p)
                    &&& p.len() >= 1
                    &&& p[0] == x as int
                    &&& p[p.len() - 1] == y as int
                    &&& forall|k: int| 0 <= k < p.len() ==> set.contains(p[k] as usize)
                };
            assert forall|k: int| 0 <= k < p.len() implies live(g, min_value, p[k]) by {
                lemma_member_on_path(g, min_value, clusters, c, p, k);
            }
        }
        if joined_above(g, min_value, x as int, y as int) {
            let p = choose|p: Seq<int>|
                {
                    &&& #[trigger] is_path(g, p)
                    &&& p.len() >= 1
                    &&& p[0] == x as int
                    &&& p[p.len() - 1] == y as int
                    &&& forall|k: int| 0 <= k < p.len() ==> live(g, min_value, p[k])
                };
            assert(set[i] == p[0] as usize);
            lemma_path_in_component(g, min_value, clusters, c, p, p.len() - 1);
        }
    }
}

/// A node of a path inside a component is at or above the threshold.
proof fn lemma_member_on_path(
    g: Seq<Voxel>,
    min_value: u64,
    clusters: Seq<Seq<usize>>,
    c: int,
    p: Seq<int>,
    k: int,
)
    requires
        g.len() <= usize::MAX,
        are_components(g, min_value, clusters),
        0 <= c < clusters.len(),
        is_path(g, p),
        0 <= k < p.len(),
        0 <= p[0] <= usize::MAX,
        forall|n: int| 0 <= n < p.len() ==> clusters[c].contains(p[n] as usize),
    ensures
        live(g, min_value, p[k]),
{
    assert(clusters[c].contains(p[k] as usize));
    let at = choose|at: int| 0 <= at < clusters[c].len() && clusters[c][at] == p[k] as usize;
    assert(live(g, min_value, clusters[c][at] as int));
    if k > 0 {
        let j = k - 1;
        assert(linked(g, p[j], p[j + 1]));
        let n = choose|n: int|
            0 <= n < g[p[j]].voxel_links@.len() && #[trigger] g[p[j]].voxel_links@[n] == p[k];
        assert(p[k] == g[p[j]].voxel_links@[n]);
    }
}

/// Two lists of the cluster of a node at a threshold are equally long.
pub proof fn lemma_cluster_size_unique(
    g: Seq<Voxel>,
    min_value: u64,
    x: usize,
    one: Seq<usize>,
    other: Seq<usize>,
)
    requires
        is_cluster_of(g, min_value, x, one),
        is_cluster_of(g, min_value, x, other),
    ensures
        one.len() == other.len(),
{
    one.unique_seq_to_set();
    other.unique_seq_to_set();
    assert(one.to_set() =~= other.to_set()) by {
        assert forall|y: usize| one.to_set().contains(y) <==> other.to_set().contains(y) by {
            assert(one.contains(y) <==> joined_above(g, min_value, x as int, y as int));
            assert(other.contains(y) <==> joined_above(g, min_value, x as int, y as int));
        }
    }
}

/// The exact transform agrees with the threshold sweep: at every
/// threshold in the band of a step of the plan, the step's node lies in a
/// component of the nodes at or above the threshold, and that component
/// has the size that the step gives the node.
pub proof fn lemma_plan_agrees_with_sweep(
    g: Seq<Voxel>,
    min_value: u64,
    clusters: Seq<Seq<usize>>,
    k: int,
)
    requires
        valid_graph(g),
        are_components(g, min_value, clusters),
        0 <= k < fill_plan(cluster_tree(g), None).len(),
        in_band(g, fill_plan(cluster_tree(g), None)[k], min_value),
    ensures
        exists|c: int, i: int|
            0 <= c < clusters.len() && 0 <= i < clusters[c].len() && #[trigger] clusters[c][i]
                == fill_plan(cluster_tree(g), None)[k].voxel && clusters[c].len() == fill_plan(
                cluster_tree(g),
                None,
            )[k].size,
{
    let steps = fill_plan(cluster_tree(g), None);
    let step = steps[k];
    let x = step.voxel;
    lemma_tree_plan_exact(g);
    assert(step_exact(g, steps[k]));
    let set = choose|set: Seq<usize>| #[trigger]
        is_cluster_of(g, min_value, x, set) && set.len() == step.size;
    lemma_plan_voxel_in_range(g, k);
    assert(live(g, min_value, x as int));
    assert(listed(clusters, x as int));
    let (c, i) = choose|c: int, i: int|
        0 <= c < clusters.len() && 0 <= i < clusters[c].len() && #[trigger] clusters[c][i]
            == x as int;
    lemma_component_is_cluster(g, min_value, clusters, c, i);
    lemma_cluster_size_unique(g, min_value, x, set, clusters[c]);
    assert(clusters[c][i] == x);
}

/// The nodes of the plan of the cluster tree are nodes of the graph.
proof fn lemma_plan_voxel_in_range(g: Seq<Voxel>, k: int)
    requires
        valid_graph(g),
        0 <= k < fill_plan(cluster_tree(g), None).len(),
    ensures
        fill_plan(cluster_tree(g), None)[k].voxel < g.len(),
{
    broadcast use vstd::seq_lib::group_to_multiset_ensures;

    let f = cluster_tree(g);
    let steps = fill_plan(f, None);
    lemma_cluster_tree_shape(g);
    crate::tfce::integrator::lemma_plan_covers_nodes(f, None);
    let voxels = crate::tfce::integrator::plan_voxels(steps);
    assert(voxels[k] == steps[k].voxel);
    assert(voxels.contains(steps[k].voxel));
    assert(f.nodes().count(steps[k].voxel) > 0);
}

} // verus!
