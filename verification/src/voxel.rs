//! The node model: a scalar value and the indices of the adjacent nodes.

use vstd::prelude::*;

verus! {

/// The order key of the statistic zero. Keys are the bit patterns of the
/// statistics, mapped so that they compare as the statistics do: with the
/// top bit set for a statistic that is not negative, and with every bit
/// flipped for a negative one.
pub const ZERO_VALUE: u64 = 0x8000_0000_0000_0000;

/// One node of the graph. `value` is the node's statistic as an order key:
/// a larger key is a larger statistic, equal keys are equal statistics.
#[derive(Debug, Clone)]
pub struct Voxel {
    pub voxel_links: Vec<usize>,
    pub value: u64,
}

impl Voxel {
    /// A node with the given value and adjacency list.
    pub fn new(value: u64, links: Vec<usize>) -> (v: Voxel)
        ensures
            v.value == value,
            v.voxel_links == links,
    {
        Voxel { voxel_links: links, value }
    }
}

/// Node `j` is in the adjacency list of node `i`.
pub open spec fn linked(g: Seq<Voxel>, i: int, j: int) -> bool {
    &&& 0 <= i < g.len()
    &&& exists|k: int| 0 <= k < g[i].voxel_links@.len() && #[trigger] g[i].voxel_links@[k] == j
}

/// Every adjacency list names nodes of the graph only.
pub open spec fn links_in_range(g: Seq<Voxel>) -> bool {
    forall|i: int, k: int|
        0 <= i < g.len() && 0 <= k < g[i].voxel_links@.len() ==> (#[trigger] g[i].voxel_links@[k])
            < g.len()
}

/// Whenever `i` links to `j`, `j` links to `i`.
pub open spec fn symmetric(g: Seq<Voxel>) -> bool {
    forall|i: int, j: int| #[trigger] linked(g, i, j) ==> linked(g, j, i)
}

/// No node links to itself.
pub open spec fn no_self_loops(g: Seq<Voxel>) -> bool {
    forall|i: int| !#[trigger] linked(g, i, i)
}

/// What the transform asks of its input: at least one node, adjacency lists
/// that stay inside the graph, are symmetric and hold no self-loop. (The
/// bound on the length holds of every vector.)
pub open spec fn valid_graph(g: Seq<Voxel>) -> bool {
    &&& 1 <= g.len() <= usize::MAX
    &&& links_in_range(g)
    &&& symmetric(g)
    &&& no_self_loops(g)
}

/// `p` walks along links: each node of `p` links to the next one.
pub open spec fn is_path(g: Seq<Voxel>, p: Seq<int>) -> bool {
    forall|k: int| 0 <= k < p.len() - 1 ==> #[trigger] linked(g, p[k], p[k + 1])
}

/// A path leads from `a` to `b`.
pub open spec fn reachable(g: Seq<Voxel>, a: int, b: int) -> bool {
    exists|p: Seq<int>|
        #[trigger] is_path(g, p) && p.len() >= 1 && p[0] == a && p[p.len() - 1] == b
}

/// Any two nodes are joined by a path.
pub open spec fn connected(g: Seq<Voxel>) -> bool {
    forall|a: int, b: int| 0 <= a < g.len() && 0 <= b < g.len() ==> #[trigger] reachable(g, a, b)
}

/// Every node of the graph reaches itself.
pub proof fn lemma_reachable_self(g: Seq<Voxel>, a: int)
    ensures
        reachable(g, a, a),
{
    let p = seq![a];
    assert(is_path(g, p));
    assert(p[0] == a);
}

/// A node reaches the nodes it links to.
pub proof fn lemma_reachable_link(g: Seq<Voxel>, a: int, b: int)
    requires
        linked(g, a, b),
    ensures
        reachable(g, a, b),
{
    let p = seq![a, b];
    assert(is_path(g, p)) by {
        assert forall|k: int| 0 <= k < p.len() - 1 implies #[trigger] linked(g, p[k], p[k + 1]) by {
            assert(k == 0);
        }
    }
    assert(p[0] == a && p[p.len() - 1] == b);
}

/// A path to `b` and a path from `b` make a path.
pub proof fn lemma_reachable_joined(g: Seq<Voxel>, a: int, b: int, c: int)
    requires
        reachable(g, a, b),
        reachable(g, b, c),
    ensures
        reachable(g, a, c),
{
    let p = choose|p: Seq<int>|
        #[trigger] is_path(g, p) && p.len() >= 1 && p[0] == a && p[p.len() - 1] == b;
    let q = choose|q: Seq<int>|
        #[trigger] is_path(g, q) && q.len() >= 1 && q[0] == b && q[q.len() - 1] == c;
    let r = p + q.drop_first();
    assert(is_path(g, r)) by {
        assert forall|k: int| 0 <= k < r.len() - 1 implies #[trigger] linked(g, r[k], r[k + 1]) by {
            if k < p.len() - 1 {
                assert(linked(g, p[k], p[k + 1]));
            } else {
                let j = k - (p.len() - 1);
                assert(linked(g, q[j], q[j + 1]));
            }
        }
    }
    assert(r[0] == a);
    assert(r[r.len() - 1] == c);
}

/// In a symmetric graph a path can be walked backwards.
pub proof fn lemma_reachable_back(g: Seq<Voxel>, a: int, b: int)
    requires
        symmetric(g),
        reachable(g, a, b),
    ensures
        reachable(g, b, a),
{
    let p = choose|p: Seq<int>|
        #[trigger] is_path(g, p) && p.len() >= 1 && p[0] == a && p[p.len() - 1] == b;
    let r = p.reverse();
    assert(is_path(g, r)) by {
        assert forall|k: int| 0 <= k < r.len() - 1 implies #[trigger] linked(g, r[k], r[k + 1]) by {
            let j = p.len() - 2 - k;
            assert(linked(g, p[j], p[j + 1]));
        }
    }
    assert(r[0] == b && r[r.len() - 1] == a);
}

/// A symmetric graph in which one node reaches every node is connected.
pub proof fn lemma_connected_through(g: Seq<Voxel>, hub: int)
    requires
        symmetric(g),
        forall|a: int| 0 <= a < g.len() ==> #[trigger] reachable(g, hub, a),
    ensures
        connected(g),
{
    assert forall|a: int, b: int| 0 <= a < g.len() && 0 <= b < g.len() implies #[trigger] reachable(
        g,
        a,
        b,
    ) by {
        assert(reachable(g, hub, a));
        lemma_reachable_back(g, hub, a);
        assert(reachable(g, hub, b));
        lemma_reachable_joined(g, a, hub, b);
    }
}

/// Whether node `from` links to node `to`.
pub fn has_link(voxels: &Vec<Voxel>, from: usize, to: usize) -> (found: bool)
    requires
        from < voxels.len(),
    ensures
        found == linked(voxels@, from as int, to as int),
{
    let links = &voxels[from].voxel_links;
    let mut k: usize = 0;
    while k < links.len()
        invariant
            0 <= k <= links.len(),
            from < voxels.len(),
            links@ == voxels@[from as int].voxel_links@,
            forall|j: int| 0 <= j < k ==> links@[j] != to,
        decreases links.len() - k,
    {
        if links[k] == to {
            return true;
        }
        k += 1;
    }
    false
}

/// Whether every adjacency list names nodes of the graph only.
pub fn check_links_in_range(voxels: &Vec<Voxel>) -> (ok: bool)
    ensures
        ok == links_in_range(voxels@),
{
    let mut i: usize = 0;
    while i < voxels.len()
        invariant
            0 <= i <= voxels.len(),
            forall|a: int, k: int|
                0 <= a < i && 0 <= k < voxels@[a].voxel_links@.len() ==> (
                #[trigger] voxels@[a].voxel_links@[k]) < voxels.len(),
        decreases voxels.len() - i,
    {
        let links = &voxels[i].voxel_links;
        let mut k: usize = 0;
        while k < links.len()
            invariant
                0 <= k <= links.len(),
                0 <= i < voxels.len(),
                links@ == voxels@[i as int].voxel_links@,
                forall|j: int| 0 <= j < k ==> (#[trigger] links@[j]) < voxels.len(),
            decreases links.len() - k,
        {
            if links[k] >= voxels.len() {
                assert(!(voxels@[i as int].voxel_links@[k as int] < voxels.len()));
                return false;
            }
            k += 1;
        }
        i += 1;
    }
    true
}

/// Whether the adjacency lists stay inside the graph, are symmetric and
/// hold no self-loop.
pub fn check_adjacency(voxels: &Vec<Voxel>) -> (ok: bool)
    ensures
        ok == (links_in_range(voxels@) && symmetric(voxels@) && no_self_loops(voxels@)),
{
    if !check_links_in_range(voxels) {
        return false;
    }
    let mut i: usize = 0;
    while i < voxels.len()
        invariant
            0 <= i <= voxels.len(),
            links_in_range(voxels@),
            forall|a: int, b: int| 0 <= a < i && #[trigger] linked(voxels@, a, b) ==> a != b && linked(voxels@, b, a),
        decreases voxels.len() - i,
    {
        let links = &voxels[i].voxel_links;
        let mut k: usize = 0;
        while k < links.len()
            invariant
                0 <= k <= links.len(),
                0 <= i < voxels.len(),
                links_in_range(voxels@),
                links@ == voxels@[i as int].voxel_links@,
                forall|j: int|
                    0 <= j < k ==> (#[trigger] links@[j]) != i && linked(
                        voxels@,
                        links@[j] as int,
                        i as int,
                    ),
            decreases links.len() - k,
        {
            let to: usize = links[k];
            assert(voxels@[i as int].voxel_links@[k as int] < voxels.len());
            assert(linked(voxels@, i as int, to as int));
            if to == i || !has_link(voxels, to, i) {
                return false;
            }
            k += 1;
        }
        assert forall|b: int| #[trigger] linked(voxels@, i as int, b) implies i != b && linked(
            voxels@,
            b,
            i as int,
        ) by {
            let j = choose|j: int| 0 <= j < links@.len() && #[trigger] links@[j] == b;
            assert(links@[j] != i);
        }
        i += 1;
    }
    true
}

/// Whether the graph is one the transform accepts: at least one node, and
/// adjacency lists that stay inside the graph, are symmetric and hold no
/// self-loop.
pub fn check_graph(voxels: &Vec<Voxel>) -> (ok: bool)
    ensures
        ok == valid_graph(voxels@),
{
    voxels.len() >= 1 && check_adjacency(voxels)
}

} // verus!
