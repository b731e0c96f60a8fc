//! Along the integration plan the values do not fall and the sizes shrink.

use vstd::prelude::*;

use crate::tfce::cluster::Fragment;
use crate::tfce::conservation::lemma_cluster_tree_shape;
use crate::tfce::consistency::{sorted_spine, sorted_spines};
use crate::tfce::heap_order::{bounded_below, exit_value, lemma_cluster_tree_bounded};
use crate::tfce::integrator::{fill_plan, lemma_spine_steps, spine_exit, spine_steps, FillStep};
use crate::tfce::progress::cluster_tree;
use crate::voxel::{valid_graph, Voxel};

verus! {

/// Step `k` continues from the node of an earlier step, which lies no
/// higher and has the larger cluster.
pub open spec fn continues_below(g: Seq<Voxel>, steps: Seq<FillStep>, k: int) -> bool {
    exists|j: int|
        0 <= j < k && steps[k].previous == Some(#[trigger] steps[j].voxel) && g[steps[j].voxel as int].value
            <= g[steps[k].voxel as int].value && steps[j].size > steps[k].size
}

/// Each step of a subtree's plan has a size from 1 to `top`, lies at or
/// above `bound`, and either continues from `entry` with a size below
/// `limit`, or continues from the node of an earlier step, which lies no
/// higher and has the larger cluster.
pub open spec fn descends(
    g: Seq<Voxel>,
    steps: Seq<FillStep>,
    entry: Option<usize>,
    bound: u64,
    limit: int,
    top: int,
) -> bool {
    forall|k: int|
        0 <= k < steps.len() ==> {
            &&& 1 <= (#[trigger] steps[k]).size <= top
            &&& g[steps[k].voxel as int].value >= bound
            &&& (steps[k].previous == entry && steps[k].size < limit) || continues_below(
                g,
                steps,
                k,
            )
        }
}

/// The own steps of a fragment descend.
proof fn lemma_spine_descends(
    g: Seq<Voxel>,
    f: Fragment,
    entry: Option<usize>,
    bound: u64,
    limit: int,
)
    requires
        f.well_formed(),
        sorted_spine(g, f.spine),
        forall|k: int| 0 <= k < f.spine.len() ==> g[#[trigger] f.spine[k] as int].value >= bound,
        f.size < limit,
        f.size <= usize::MAX,
    ensures
        descends(g, spine_steps(f.spine, f.size as int, entry), entry, bound, limit, f.size as int),
{
    let own = spine_steps(f.spine, f.size as int, entry);
    lemma_spine_steps(f.spine, f.size as int, entry);
    let len = f.spine.len() as int;
    assert forall|k: int| 0 <= k < own.len() implies {
        &&& 1 <= (#[trigger] own[k]).size <= f.size
        &&& g[own[k].voxel as int].value >= bound
        &&& (own[k].previous == entry && own[k].size < limit) || continues_below(g, own, k)
    } by {
        assert(own[k].voxel == f.spine[len - 1 - k]);
        if k > 0 {
            assert(own[k - 1].voxel == f.spine[len - k]);
            assert(g[f.spine[len - 1 - k] as int].value >= g[f.spine[len - k] as int].value);
            assert(continues_below(g, own, k));
        }
    }
}

/// The steps of a child's subtree, put behind the steps before them,
/// descend with them.
proof fn lemma_descends_append(
    g: Seq<Voxel>,
    head: Seq<FillStep>,
    tail: Seq<FillStep>,
    entry: Option<usize>,
    exit: Option<usize>,
    bound: u64,
    exit_bound: u64,
    limit: int,
    exit_limit: int,
    top: int,
    at: int,
)
    requires
        descends(g, head, entry, bound, limit, top),
        descends(g, tail, exit, exit_bound, exit_limit, top),
        bound <= exit_bound,
        (exit == entry && exit_limit <= limit) || (0 <= at < head.len() && exit == Some(
            head[at].voxel,
        ) && g[head[at].voxel as int].value <= exit_bound && exit_limit <= head[at].size),
    ensures
        descends(g, head + tail, entry, bound, limit, top),
{
    let all = head + tail;
    assert forall|k: int| 0 <= k < all.len() implies {
        &&& 1 <= (#[trigger] all[k]).size <= top
        &&& g[all[k].voxel as int].value >= bound
        &&& (all[k].previous == entry && all[k].size < limit) || continues_below(g, all, k)
    } by {
        if k < head.len() {
            assert(all[k] == head[k]);
            if !(head[k].previous == entry && head[k].size < limit) {
                let j = choose|j: int|
                    0 <= j < k && head[k].previous == Some(#[trigger] head[j].voxel) && g[head[j].voxel as int].value
                        <= g[head[k].voxel as int].value && head[j].size > head[k].size;
                assert(all[j] == head[j]);
                assert(continues_below(g, all, k));
            }
        } else {
            let i = k - head.len();
            assert(all[k] == tail[i]);
            if tail[i].previous == exit && tail[i].size < exit_limit {
                if !(exit == entry && exit_limit <= limit) {
                    assert(all[at] == head[at]);
                    assert(continues_below(g, all, k));
                }
            } else {
                let j = choose|j: int|
                    0 <= j < i && tail[i].previous == Some(#[trigger] tail[j].voxel) && g[tail[j].voxel as int].value
                        <= g[tail[i].voxel as int].value && tail[j].size > tail[i].size;
                assert(all[j + head.len()] == tail[j]);
                assert(continues_below(g, all, k));
            }
        }
    }
}

/// The plan of a subtree descends.
pub proof fn lemma_plan_descends(
    g: Seq<Voxel>,
    f: Fragment,
    entry: Option<usize>,
    bound: u64,
    limit: int,
)
    requires
        f.well_formed(),
        sorted_spines(g, f),
        bounded_below(g, f, bound),
        f.size < limit,
        f.size <= usize::MAX,
    ensures
        descends(g, fill_plan(f, entry), entry, bound, limit, f.size as int),
    decreases f,
{
    let own = spine_steps(f.spine, f.size as int, entry);
    let exit = spine_exit(f.spine, entry);
    let exit_bound = exit_value(g, f, bound);
    let len = f.spine.len() as int;
    let exit_limit = if len == 0 {
        limit
    } else {
        f.size - (len - 1)
    };
    let at = len - 1;
    lemma_spine_descends(g, f, entry, bound, limit);
    lemma_spine_steps(f.spine, f.size as int, entry);
    if len > 0 {
        assert(own[at].voxel == f.spine[0]);
        assert(g[f.spine[0] as int].value >= bound);
    }
    let second: Seq<FillStep> = match f.second {
        Some(c) => fill_plan(*c, exit),
        None => Seq::empty(),
    };
    let first: Seq<FillStep> = match f.first {
        Some(c) => fill_plan(*c, exit),
        None => Seq::empty(),
    };
    match f.second {
        Some(c) => {
            lemma_plan_descends(g, *c, exit, exit_bound, exit_limit);
            lemma_tops_raised(g, second, exit, exit_bound, exit_limit, c.size as int, f.size as int);
        },
        None => {},
    }
    match f.first {
        Some(c) => {
            lemma_plan_descends(g, *c, exit, exit_bound, exit_limit);
            lemma_tops_raised(g, first, exit, exit_bound, exit_limit, c.size as int, f.size as int);
        },
        None => {},
    }
    lemma_descends_append(
        g,
        own,
        second,
        entry,
        exit,
        bound,
        exit_bound,
        limit,
        exit_limit,
        f.size as int,
        at,
    );
    if len > 0 {
        assert((own + second)[at] == own[at]);
    }
    lemma_descends_append(
        g,
        own + second,
        first,
        entry,
        exit,
        bound,
        exit_bound,
        limit,
        exit_limit,
        f.size as int,
        at,
    );
}

/// The greatest size allowed can be raised.
proof fn lemma_tops_raised(
    g: Seq<Voxel>,
    steps: Seq<FillStep>,
    entry: Option<usize>,
    bound: u64,
    limit: int,
    top: int,
    higher: int,
)
    requires
        descends(g, steps, entry, bound, limit, top),
        top <= higher,
    ensures
        descends(g, steps, entry, bound, limit, higher),
{
    assert forall|k: int| 0 <= k < steps.len() implies {
        &&& 1 <= (#[trigger] steps[k]).size <= higher
        &&& g[steps[k].voxel as int].value >= bound
        &&& (steps[k].previous == entry && steps[k].size < limit) || continues_below(g, steps, k)
    } by {
        assert(1 <= steps[k].size <= top);
    }
}

/// Every step has a size from 1 to the number of nodes, and every step
/// that continues from a node continues from the node of an earlier step,
/// which lies no higher and has the larger cluster.
pub open spec fn grows_downwards(g: Seq<Voxel>, steps: Seq<FillStep>) -> bool {
    forall|k: int|
        0 <= k < steps.len() ==> {
            &&& 1 <= (#[trigger] steps[k]).size <= g.len()
            &&& steps[k].previous is None || continues_below(g, steps, k)
        }
}

/// In the plan of the cluster tree the values do not fall from a step to
/// the steps that continue from it, and the clusters shrink: towards lower
/// thresholds the clusters grow.
pub proof fn lemma_tree_plan_descends(g: Seq<Voxel>)
    requires
        valid_graph(g),
    ensures
        grows_downwards(g, fill_plan(cluster_tree(g), None)),
{
    let f = cluster_tree(g);
    lemma_cluster_tree_shape(g);
    lemma_cluster_tree_bounded(g);
    lemma_plan_descends(g, f, None, 0, f.size as int + 1);
    let steps = fill_plan(f, None);
    assert forall|k: int| 0 <= k < steps.len() implies {
        &&& 1 <= (#[trigger] steps[k]).size <= g.len()
        &&& steps[k].previous is None || continues_below(g, steps, k)
    } by {
        assert(1 <= steps[k].size <= f.size);
    }
}

} // verus!
