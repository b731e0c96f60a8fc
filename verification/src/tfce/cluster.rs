//! Cluster fragments: the binary tree that the builder produces.

use vstd::multiset::*;
use vstd::prelude::*;

verus! {

/// One fragment of the cluster tree. `voxel_indices` is the spine, in the
/// order the nodes were visited; `size` counts the spine and both subtrees.
#[derive(Debug, PartialEq, Eq)]
pub struct Cluster {
    pub voxel_indices: Vec<usize>,
    pub size: usize,
    pub parent_cluster_1: Option<Box<Cluster>>,
    pub parent_cluster_2: Option<Box<Cluster>>,
}

/// The mathematical value of a [`Cluster`].
pub ghost struct Fragment {
    pub spine: Seq<usize>,
    pub size: nat,
    pub first: Option<Box<Fragment>>,
    pub second: Option<Box<Fragment>>,
}

impl Fragment {
    /// The fragment without nodes or children.
    pub open spec fn empty() -> Fragment {
        Fragment { spine: Seq::empty(), size: 0, first: None, second: None }
    }

    /// Every node of the subtree, with the number of times it occurs.
    pub open spec fn nodes(self) -> Multiset<usize>
        decreases self,
    {
        self.spine.to_multiset().add(
            match self.first {
                Some(f) => f.nodes(),
                None => Multiset::empty(),
            },
        ).add(
            match self.second {
                Some(f) => f.nodes(),
                None => Multiset::empty(),
            },
        )
    }

    /// Each fragment's size is the length of its spine plus the sizes of its
    /// children.
    pub open spec fn well_formed(self) -> bool
        decreases self,
    {
        &&& self.size == self.spine.len() + (match self.first {
            Some(f) => f.size,
            None => 0,
        }) + (match self.second {
            Some(f) => f.size,
            None => 0,
        })
        &&& match self.first {
            Some(f) => f.well_formed(),
            None => true,
        }
        &&& match self.second {
            Some(f) => f.well_formed(),
            None => true,
        }
    }

    /// A well-formed fragment's size is the number of nodes in its subtree.
    pub proof fn lemma_size_counts_nodes(self)
        requires
            self.well_formed(),
        ensures
            self.size == self.nodes().len(),
        decreases self,
    {
        broadcast use vstd::seq_lib::group_to_multiset_ensures;

        match self.first {
            Some(f) => f.lemma_size_counts_nodes(),
            None => {},
        }
        match self.second {
            Some(f) => f.lemma_size_counts_nodes(),
            None => {},
        }
    }
}

impl View for Cluster {
    type V = Fragment;

    open spec fn view(&self) -> Fragment {
        self.fragment()
    }
}

impl Cluster {
    /// The fragment that this cluster stands for.
    pub open spec fn fragment(&self) -> Fragment
        decreases self,
    {
        Fragment {
            spine: self.voxel_indices@,
            size: self.size as nat,
            first: match self.parent_cluster_1 {
                Some(c) => Some(Box::new(c.fragment())),
                None => None,
            },
            second: match self.parent_cluster_2 {
                Some(c) => Some(Box::new(c.fragment())),
                None => None,
            },
        }
    }

    /// A fragment without nodes or children.
    pub fn new() -> (c: Cluster)
        ensures
            c@ == Fragment::empty(),
    {
        Cluster {
            voxel_indices: Vec::new(),
            size: 0,
            parent_cluster_1: None,
            parent_cluster_2: None,
        }
    }
}

} // verus!
