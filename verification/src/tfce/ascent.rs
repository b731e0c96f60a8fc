//! Where the traversal starts and how it climbs a newly found hill.

use vstd::prelude::*;

use crate::voxel::{linked, links_in_range, Voxel};

verus! {

/// `r` is the first node that carries the greatest value of the graph.
pub open spec fn is_first_max(g: Seq<Voxel>, r: int) -> bool {
    &&& 0 <= r < g.len()
    &&& forall|j: int| 0 <= j < g.len() ==> g[j].value <= g[r].value
    &&& forall|j: int| 0 <= j < r ==> g[j].value < g[r].value
}

/// The first node that carries the greatest value of the graph.
pub open spec fn max_voxel(g: Seq<Voxel>) -> int {
    choose|r: int| is_first_max(g, r)
}

/// At most one node is the first maximum.
pub proof fn lemma_first_max_unique(g: Seq<Voxel>, a: int, b: int)
    requires
        is_first_max(g, a),
        is_first_max(g, b),
    ensures
        a == b,
{
    if a < b {
        assert(g[a].value < g[b].value);
    } else if b < a {
        assert(g[b].value < g[a].value);
    }
}

/// The index of the first node that carries the greatest value.
pub fn find_max_voxel(voxels: &Vec<Voxel>) -> (r: usize)
    requires
        voxels.len() >= 1,
    ensures
        is_first_max(voxels@, r as int),
        r == max_voxel(voxels@),
{
    let mut max_i: usize = 0;
    let mut max_value: u64 = voxels[0].value;
    let mut i: usize = 1;
    while i < voxels.len()
        invariant
            1 <= i <= voxels.len(),
            max_i < i,
            max_value == voxels@[max_i as int].value,
            forall|j: int| 0 <= j < i ==> voxels@[j].value <= max_value,
            forall|j: int| 0 <= j < max_i ==> voxels@[j].value < max_value,
        decreases voxels.len() - i,
    {
        if voxels[i].value > max_value {
            max_i = i;
            max_value = voxels[i].value;
        }
        i += 1;
    }
    proof {
        lemma_first_max_unique(voxels@, max_i as int, max_voxel(voxels@));
    }
    max_i
}

/// Scans `links` from the left and keeps a link each time its value exceeds
/// `floor` and the value of every link before it.
pub open spec fn best_link(g: Seq<Voxel>, links: Seq<usize>, floor: u64) -> Option<usize>
    decreases links.len(),
{
    if links.len() == 0 {
        None
    } else {
        let before = best_link(g, links.drop_last(), floor);
        let bar = match before {
            Some(p) => g[p as int].value,
            None => floor,
        };
        if g[links.last() as int].value > bar {
            Some(links.last())
        } else {
            before
        }
    }
}

/// The neighbour of `from` with the greatest value, the first such in the
/// adjacency list, if that value exceeds the value of `from`.
pub open spec fn steepest_neighbor(g: Seq<Voxel>, from: int) -> Option<usize> {
    best_link(g, g[from].voxel_links@, g[from].value)
}

/// What `best_link` returns: `None` when no link exceeds `floor`; otherwise the
/// first link of greatest value, which exceeds `floor`.
pub proof fn lemma_best_link(g: Seq<Voxel>, links: Seq<usize>, floor: u64)
    ensures
        match best_link(g, links, floor) {
            None => forall|k: int| 0 <= k < links.len() ==> g[links[k] as int].value <= floor,
            Some(l) => exists|at: int|
                {
                    &&& 0 <= at < links.len()
                    &&& #[trigger] links[at] == l
                    &&& g[l as int].value > floor
                    &&& forall|k: int|
                        0 <= k < links.len() ==> g[links[k] as int].value <= g[l as int].value
                    &&& forall|k: int| 0 <= k < at ==> g[links[k] as int].value < g[l as int].value
                },
        },
    decreases links.len(),
{
    if links.len() > 0 {
        let head = links.drop_last();
        lemma_best_link(g, head, floor);
        let before = best_link(g, head, floor);
        let last = links.last();
        assert forall|k: int| 0 <= k < head.len() implies head[k] == links[k] by {}
        match before {
            None => {
                if g[last as int].value > floor {
                    assert(links[links.len() - 1] == last);
                }
            },
            Some(p) => {
                let at = choose|at: int|
                    {
                        &&& 0 <= at < head.len()
                        &&& #[trigger] head[at] == p
                        &&& g[p as int].value > floor
                        &&& forall|k: int|
                            0 <= k < head.len() ==> g[head[k] as int].value <= g[p as int].value
                        &&& forall|k: int|
                            0 <= k < at ==> g[head[k] as int].value < g[p as int].value
                    };
                if g[last as int].value > g[p as int].value {
                    assert(links[links.len() - 1] == last);
                } else {
                    assert(links[at] == p);
                }
            },
        }
    }
}

/// A steepest neighbour is a neighbour, and lies strictly higher.
pub proof fn lemma_steepest_is_higher_neighbor(g: Seq<Voxel>, from: int)
    requires
        0 <= from < g.len(),
    ensures
        match steepest_neighbor(g, from) {
            None => true,
            Some(l) => linked(g, from, l as int) && g[l as int].value > g[from].value,
        },
{
    lemma_best_link(g, g[from].voxel_links@, g[from].value);
}

/// The neighbour of `from` to climb to: the first neighbour of greatest
/// value, if it lies strictly higher than `from`; `None` on a local maximum.
pub fn traverse_max(from: usize, voxels: &Vec<Voxel>) -> (r: Option<usize>)
    requires
        from < voxels.len(),
        links_in_range(voxels@),
    ensures
        r == steepest_neighbor(voxels@, from as int),
{
    let value: u64 = voxels[from].value;
    let mut max_index: Option<usize> = None;
    let mut max_value: u64 = value;
    let links = &voxels[from].voxel_links;
    let mut k: usize = 0;
    while k < links.len()
        invariant
            0 <= k <= links.len(),
            from < voxels.len(),
            links_in_range(voxels@),
            links@ == voxels@[from as int].voxel_links@,
            max_index == best_link(voxels@, links@.take(k as int), value),
            max_value == match max_index {
                Some(p) => voxels@[p as int].value,
                None => value,
            },
        decreases links.len() - k,
    {
        let ni: usize = links[k];
        assert(links@.take(k + 1).drop_last() =~= links@.take(k as int));
        assert(voxels@[from as int].voxel_links@[k as int] < voxels.len());
        if voxels[ni].value > max_value {
            max_index = Some(ni);
            max_value = voxels[ni].value;
        }
        k += 1;
    }
    assert(links@.take(k as int) =~= links@);
    max_index
}

/// The local maximum reached from `from` by climbing to the steepest
/// neighbour until there is none.
pub open spec fn hill_top(g: Seq<Voxel>, from: int) -> int
    decreases u64::MAX - g[from].value,
    when links_in_range(g) && 0 <= from < g.len()
    via hill_top_decreases
{
    match steepest_neighbor(g, from) {
        Some(next) => hill_top(g, next as int),
        None => from,
    }
}

#[via_fn]
proof fn hill_top_decreases(g: Seq<Voxel>, from: int) {
    lemma_steepest_is_higher_neighbor(g, from);
}

} // verus!
