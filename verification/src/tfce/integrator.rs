//! The plan of the value integrator: in which order the nodes of the cluster
//! tree get their enhanced value, from which node each one continues, and
//! with which cluster size.

use vstd::multiset::*;
use vstd::prelude::*;

use crate::tfce::cluster::{Cluster, Fragment};

verus! {

/// One step of the integration. The enhanced value of `voxel` is the
/// enhanced value of `previous` (zero where there is none) plus the integral
/// from the value of `previous` (zero where there is none) to the value of
/// `voxel`, taken with cluster size `size`.
#[derive(Debug, Clone, Copy, PartialEq, Eq, Structural)]
pub struct FillStep {
    pub voxel: usize,
    pub size: usize,
    pub previous: Option<usize>,
}

/// The steps for one spine, from its last node to its first: the size starts
/// at `size` and falls by one with each node, and each node continues from
/// the one before it.
pub open spec fn spine_steps(spine: Seq<usize>, size: int, previous: Option<usize>) -> Seq<FillStep>
    decreases spine.len(),
{
    if spine.len() == 0 {
        Seq::empty()
    } else {
        seq![FillStep { voxel: spine.last(), size: size as usize, previous }] + spine_steps(
            spine.drop_last(),
            size - 1,
            Some(spine.last()),
        )
    }
}

/// The node from which the children of a fragment continue: the first node
/// of its spine, or what the fragment itself continued from if its spine is
/// empty.
pub open spec fn spine_exit(spine: Seq<usize>, previous: Option<usize>) -> Option<usize> {
    if spine.len() == 0 {
        previous
    } else {
        Some(spine[0])
    }
}

/// The steps for a whole subtree entered from `previous`: the fragment's own
/// spine, then the subtree of its second child, then that of its first.
pub open spec fn fill_plan(f: Fragment, previous: Option<usize>) -> Seq<FillStep>
    decreases f,
{
    spine_steps(f.spine, f.size as int, previous) + (match f.second {
        Some(c) => fill_plan(*c, spine_exit(f.spine, previous)),
        None => Seq::empty(),
    }) + (match f.first {
        Some(c) => fill_plan(*c, spine_exit(f.spine, previous)),
        None => Seq::empty(),
    })
}

/// The steps still owed for the fragments on the work stack, the top of the
/// stack first.
pub open spec fn pending_plan(stack: Seq<(Cluster, Option<usize>)>) -> Seq<FillStep>
    decreases stack.len(),
{
    if stack.len() == 0 {
        Seq::empty()
    } else {
        fill_plan(stack.last().0@, stack.last().1) + pending_plan(stack.drop_last())
    }
}

/// Every fragment on the work stack has consistent sizes.
pub open spec fn all_well_formed(stack: Seq<(Cluster, Option<usize>)>) -> bool {
    forall|k: int| 0 <= k < stack.len() ==> (#[trigger] stack[k]).0@.well_formed()
}

/// The integration plan of the cluster tree `root_cluster`: one step for
/// each node of the tree, each step after the step of the node it continues
/// from.
pub fn fill_clusters(root_cluster: Cluster) -> (steps: Vec<FillStep>)
    requires
        root_cluster@.well_formed(),
    ensures
        steps@ == fill_plan(root_cluster@, None),
{
    let mut steps: Vec<FillStep> = Vec::new();
    let mut cluster_stack: Vec<(Cluster, Option<usize>)> = Vec::new();
    let ghost whole = fill_plan(root_cluster@, None);
    cluster_stack.push((root_cluster, None));
    assert(cluster_stack@.drop_last() =~= Seq::<(Cluster, Option<usize>)>::empty());
    assert(pending_plan(cluster_stack@.drop_last()) =~= Seq::<FillStep>::empty());
    assert(pending_plan(cluster_stack@) =~= whole);

    loop
        invariant
            all_well_formed(cluster_stack@),
            steps@ + pending_plan(cluster_stack@) == whole,
        ensures
            steps@ == whole,
        decreases pending_weight(cluster_stack@),
    {
        let ghost stack_before = cluster_stack@;
        let ghost steps_before = steps@;
        let (cluster, entry) = match cluster_stack.pop() {
            Some(item) => item,
            None => {
                assert(steps@ + Seq::<FillStep>::empty() =~= steps@);
                break ;
            },
        };
        let ghost rest = cluster_stack@;
        assert(rest =~= stack_before.drop_last());
        assert(stack_before.last().0@ == cluster@);
        let ghost f = cluster@;
        assert(f.well_formed());
        let Cluster { voxel_indices, size, parent_cluster_1, parent_cluster_2 } = cluster;
        let mut prev: Option<usize> = entry;
        let mut sz: usize = size;
        let mut k: usize = voxel_indices.len();
        assert(voxel_indices@.take(k as int) =~= voxel_indices@);
        while k > 0
            invariant
                0 <= k <= voxel_indices.len(),
                voxel_indices@ == f.spine,
                f.size >= f.spine.len(),
                sz == f.size - (voxel_indices.len() - k),
                prev == (if k == voxel_indices.len() {
                    entry
                } else {
                    Some(voxel_indices@[k as int])
                }),
                steps@ + spine_steps(voxel_indices@.take(k as int), sz as int, prev)
                    == steps_before + spine_steps(f.spine, f.size as int, entry),
            decreases k,
        {
            let vi: usize = voxel_indices[k - 1];
            let ghost head = voxel_indices@.take(k as int);
            assert(head.last() == vi);
            assert(head.drop_last() =~= voxel_indices@.take(k - 1));
            let ghost tail = spine_steps(head.drop_last(), sz - 1, Some(vi));
            assert(spine_steps(head, sz as int, prev) == seq![
                FillStep { voxel: vi, size: sz, previous: prev },
            ] + tail);
            let ghost before = steps@;
            steps.push(FillStep { voxel: vi, size: sz, previous: prev });
            assert(steps@ + tail =~= before + (seq![
                FillStep { voxel: vi, size: sz, previous: prev },
            ] + tail));
            prev = Some(vi);
            sz -= 1;
            k -= 1;
        }
        assert(voxel_indices@.take(0) =~= Seq::<usize>::empty());
        assert(steps@ + Seq::<FillStep>::empty() =~= steps@);
        assert(prev == spine_exit(f.spine, entry));
        let ghost own = spine_steps(f.spine, f.size as int, entry);
        assert(steps@ == steps_before + own);
        let ghost plan_first = match f.first {
            Some(c) => fill_plan(*c, prev),
            None => Seq::empty(),
        };
        let ghost plan_second = match f.second {
            Some(c) => fill_plan(*c, prev),
            None => Seq::empty(),
        };
        assert(fill_plan(f, entry) == own + plan_second + plan_first);
        match parent_cluster_1 {
            Some(boxed) => {
                let ghost before = cluster_stack@;
                cluster_stack.push((*boxed, prev));
                assert(cluster_stack@.drop_last() =~= before);
                assert(cluster_stack@.last().0@ == *(f.first->Some_0));
            },
            None => {},
        }
        assert(pending_plan(cluster_stack@) =~= plan_first + pending_plan(rest));
        assert(pending_weight(cluster_stack@) == pending_weight(rest) + match f.first {
            Some(c) => weight(*c),
            None => 0,
        });
        let ghost middle = cluster_stack@;
        match parent_cluster_2 {
            Some(boxed) => {
                let ghost before = cluster_stack@;
                cluster_stack.push((*boxed, prev));
                assert(cluster_stack@.drop_last() =~= before);
                assert(cluster_stack@.last().0@ == *(f.second->Some_0));
            },
            None => {},
        }
        assert(pending_plan(cluster_stack@) =~= plan_second + pending_plan(middle));
        assert(pending_weight(cluster_stack@) == pending_weight(middle) + match f.second {
            Some(c) => weight(*c),
            None => 0,
        });
        assert(pending_weight(stack_before) == weight(f) + pending_weight(rest));
        assert(steps@ + pending_plan(cluster_stack@) =~= steps_before + (fill_plan(f, entry)
            + pending_plan(rest)));
        proof {
            lemma_weight_positive(f);
            match f.first {
                Some(c) => lemma_weight_positive(*c),
                None => {},
            }
            match f.second {
                Some(c) => lemma_weight_positive(*c),
                None => {},
            }
        }
    }
    steps
}

/// The nodes of the steps, in the order of the plan.
pub open spec fn plan_voxels(steps: Seq<FillStep>) -> Seq<usize> {
    Seq::new(steps.len(), |k: int| steps[k].voxel)
}

/// Each step continues from `entry` or from the node of an earlier step.
pub open spec fn continues_earlier(steps: Seq<FillStep>, entry: Option<usize>) -> bool {
    forall|k: int|
        0 <= k < steps.len() ==> (#[trigger] steps[k]).previous == entry || exists|j: int|
            0 <= j < k && steps[k].previous == Some(#[trigger] steps[j].voxel)
}

/// The steps of a spine, one by one: step `k` is for the node `k` places
/// before the end of the spine, has size `size - k`, and continues from the
/// node after it in the spine, the first step from `previous`.
pub proof fn lemma_spine_steps(spine: Seq<usize>, size: int, previous: Option<usize>)
    ensures
        spine_steps(spine, size, previous).len() == spine.len(),
        forall|k: int|
            0 <= k < spine.len() ==> (#[trigger] spine_steps(spine, size, previous)[k])
                == (FillStep {
                voxel: spine[spine.len() - 1 - k],
                size: (size - k) as usize,
                previous: if k == 0 {
                    previous
                } else {
                    Some(spine[spine.len() - k])
                },
            }),
    decreases spine.len(),
{
    if spine.len() > 0 {
        let rest = spine.drop_last();
        lemma_spine_steps(rest, size - 1, Some(spine.last()));
        let tail = spine_steps(rest, size - 1, Some(spine.last()));
        assert forall|k: int| 0 <= k < spine.len() implies (#[trigger] spine_steps(
            spine,
            size,
            previous,
        )[k]) == (FillStep {
            voxel: spine[spine.len() - 1 - k],
            size: (size - k) as usize,
            previous: if k == 0 {
                previous
            } else {
                Some(spine[spine.len() - k])
            },
        }) by {
            if k > 0 {
                assert(spine_steps(spine, size, previous)[k] == tail[k - 1]);
                assert(rest[rest.len() - 1 - (k - 1)] == spine[spine.len() - 1 - k]);
            }
        }
    }
}

/// The plan has one step for each node of the subtree.
pub proof fn lemma_plan_covers_nodes(f: Fragment, previous: Option<usize>)
    ensures
        plan_voxels(fill_plan(f, previous)).to_multiset() == f.nodes(),
        fill_plan(f, previous).len() == f.nodes().len(),
    decreases f,
{
    broadcast use vstd::seq_lib::group_to_multiset_ensures;

    let own = spine_steps(f.spine, f.size as int, previous);
    let exit = spine_exit(f.spine, previous);
    let second: Seq<FillStep> = match f.second {
        Some(c) => fill_plan(*c, exit),
        None => Seq::empty(),
    };
    let first: Seq<FillStep> = match f.first {
        Some(c) => fill_plan(*c, exit),
        None => Seq::empty(),
    };
    lemma_spine_steps(f.spine, f.size as int, previous);
    assert(plan_voxels(own) =~= f.spine.reverse());
    f.spine.lemma_reverse_to_multiset();
    match f.second {
        Some(c) => lemma_plan_covers_nodes(*c, exit),
        None => {
            assert(plan_voxels(second) =~= Seq::<usize>::empty());
        },
    }
    match f.first {
        Some(c) => lemma_plan_covers_nodes(*c, exit),
        None => {
            assert(plan_voxels(first) =~= Seq::<usize>::empty());
        },
    }
    assert(plan_voxels(fill_plan(f, previous)) =~= plan_voxels(own) + plan_voxels(second)
        + plan_voxels(first));
    vstd::seq_lib::lemma_multiset_commutative(plan_voxels(own), plan_voxels(second));
    vstd::seq_lib::lemma_multiset_commutative(
        plan_voxels(own) + plan_voxels(second),
        plan_voxels(first),
    );
    assert(plan_voxels(fill_plan(f, previous)).to_multiset() =~= f.nodes());
}

/// Appending steps that continue from a node of the first part, or from
/// where the first part continues, keeps the plan in order.
proof fn lemma_continues_append(
    head: Seq<FillStep>,
    tail: Seq<FillStep>,
    entry: Option<usize>,
    exit: Option<usize>,
)
    requires
        continues_earlier(head, entry),
        continues_earlier(tail, exit),
        exit == entry || exists|j: int| 0 <= j < head.len() && exit == Some(#[trigger] head[j].voxel),
    ensures
        continues_earlier(head + tail, entry),
{
    let all = head + tail;
    assert forall|k: int| 0 <= k < all.len() implies (#[trigger] all[k]).previous == entry
        || exists|j: int| 0 <= j < k && all[k].previous == Some(#[trigger] all[j].voxel) by {
        if k < head.len() {
            assert(all[k] == head[k]);
            if head[k].previous != entry {
                let j = choose|j: int|
                    0 <= j < k && head[k].previous == Some(#[trigger] head[j].voxel);
                assert(all[j] == head[j]);
            }
        } else {
            let t = k - head.len();
            assert(all[k] == tail[t]);
            if tail[t].previous == exit {
                if exit != entry {
                    let j = choose|j: int|
                        0 <= j < head.len() && exit == Some(#[trigger] head[j].voxel);
                    assert(all[j] == head[j]);
                }
            } else {
                let j = choose|j: int|
                    0 <= j < t && tail[t].previous == Some(#[trigger] tail[j].voxel);
                assert(all[j + head.len()] == tail[j]);
            }
        }
    }
}

/// In the plan of a subtree each step continues from the node the subtree
/// was entered from, or from the node of an earlier step: by the time a
/// step is due, the value it builds on is known.
pub proof fn lemma_plan_continues_earlier(f: Fragment, previous: Option<usize>)
    ensures
        continues_earlier(fill_plan(f, previous), previous),
    decreases f,
{
    let own = spine_steps(f.spine, f.size as int, previous);
    let exit = spine_exit(f.spine, previous);
    let second: Seq<FillStep> = match f.second {
        Some(c) => fill_plan(*c, exit),
        None => Seq::empty(),
    };
    let first: Seq<FillStep> = match f.first {
        Some(c) => fill_plan(*c, exit),
        None => Seq::empty(),
    };
    lemma_spine_steps(f.spine, f.size as int, previous);
    assert(continues_earlier(own, previous)) by {
        assert forall|k: int| 0 <= k < own.len() implies (#[trigger] own[k]).previous == previous
            || exists|j: int| 0 <= j < k && own[k].previous == Some(#[trigger] own[j].voxel) by {
            if k > 0 {
                assert(own[k - 1].voxel == f.spine[f.spine.len() - k]);
            }
        }
    }
    match f.second {
        Some(c) => lemma_plan_continues_earlier(*c, exit),
        None => {},
    }
    match f.first {
        Some(c) => lemma_plan_continues_earlier(*c, exit),
        None => {},
    }
    if f.spine.len() > 0 {
        assert(own[f.spine.len() - 1].voxel == f.spine[0]);
    }
    lemma_continues_append(own, second, previous, exit);
    if f.spine.len() > 0 {
        assert((own + second)[f.spine.len() - 1] == own[f.spine.len() - 1]);
    }
    lemma_continues_append(own + second, first, previous, exit);
}

/// The number of fragments in the subtree.
pub open spec fn weight(f: Fragment) -> nat
    decreases f,
{
    1 + (match f.first {
        Some(c) => weight(*c),
        None => 0,
    }) + (match f.second {
        Some(c) => weight(*c),
        None => 0,
    })
}

/// The number of fragments in the subtrees on the work stack.
pub open spec fn pending_weight(stack: Seq<(Cluster, Option<usize>)>) -> nat
    decreases stack.len(),
{
    if stack.len() == 0 {
        0
    } else {
        weight(stack.last().0@) + pending_weight(stack.drop_last())
    }
}

/// A subtree has at least one fragment.
proof fn lemma_weight_positive(f: Fragment)
    ensures
        weight(f) >= 1,
{
}

} // verus!
