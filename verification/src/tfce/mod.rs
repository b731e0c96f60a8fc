//! The exact transform: the cluster-tree builder and the plan of the integrator.

pub mod approximate_tfce;
pub mod ascent;
pub mod builder;
pub mod cluster;
pub mod conservation;
pub mod consistency;
pub mod descent;
pub mod exactness;
pub mod grounding;
pub mod grounding_steps;
pub mod heap_order;
pub mod integrator;
pub mod members;
pub mod order;
pub mod plan_order;
pub mod preservation;
pub mod progress;
pub mod threshold;

pub use self::approximate_tfce::get_clusters;
pub use self::builder::build_cluster_tree;
pub use self::cluster::Cluster;
pub use self::integrator::{fill_clusters, FillStep};

use vstd::prelude::*;

use self::exactness::{lemma_tree_plan_exact, step_exact};
use self::integrator::{
    continues_earlier, fill_plan, lemma_plan_continues_earlier, lemma_plan_covers_nodes,
    plan_voxels,
};
use self::plan_order::{grows_downwards, lemma_tree_plan_descends};
use self::progress::cluster_tree;
use crate::voxel::{connected, valid_graph, Voxel};

verus! {

/// The exact transform up to the arithmetic: builds the cluster tree of
/// the graph and lays out the integration over it. The plan has one step
/// for each node of the tree, and each step comes after the step of the
/// node it continues from, which lies no higher and has the larger
/// cluster. The size of a step is the size of the cluster of its node at
/// every threshold above the value of the node it continues from and not
/// above the value of its own node. For a connected graph every node has
/// its step.
pub fn tfce(voxels: &Vec<Voxel>) -> (steps: Vec<FillStep>)
    requires
        valid_graph(voxels@),
    ensures
        steps@ == fill_plan(cluster_tree(voxels@), None),
        continues_earlier(steps@, None),
        grows_downwards(voxels@, steps@),
        forall|k: int| 0 <= k < steps.len() ==> step_exact(voxels@, #[trigger] steps@[k]),
        plan_voxels(steps@).to_multiset() == cluster_tree(voxels@).nodes(),
        steps.len() <= voxels.len(),
        connected(voxels@) ==> steps.len() == voxels.len(),
{
    let cluster = build_cluster_tree(voxels);
    proof {
        lemma_plan_continues_earlier(cluster@, None);
        lemma_plan_covers_nodes(cluster@, None);
        lemma_tree_plan_descends(voxels@);
        lemma_tree_plan_exact(voxels@);
    }
    fill_clusters(cluster)
}

} // verus!
