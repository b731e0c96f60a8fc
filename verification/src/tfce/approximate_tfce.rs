//! The reference transform's part on the graph: the connected components of
//! the nodes at or above a threshold.

use std::collections::VecDeque;
use vstd::prelude::*;

use crate::tfce::progress::{lemma_visited_count, visited_count};
use crate::voxel::{is_path, linked, links_in_range, symmetric, Voxel};

verus! {

/// Node `i` is at or above the threshold.
pub open spec fn live(g: Seq<Voxel>, min_value: u64, i: int) -> bool {
    0 <= i < g.len() && g[i].value >= min_value
}

/// A path leads from `a` to `b` through nodes of `members` only.
pub open spec fn joined_within(g: Seq<Voxel>, members: Seq<usize>, a: int, b: int) -> bool {
    exists|p: Seq<int>|
        {
            &&& #[trigger] is_path(g, p)
            &&& p.len() >= 1
            &&& p[0] == a
            &&& p[p.len() - 1] == b
            &&& forall|k: int| 0 <= k < p.len() ==> members.contains(p[k] as usize)
        }
}

/// Node `i` is listed in one of the clusters.
pub open spec fn listed(clusters: Seq<Seq<usize>>, i: int) -> bool {
    exists|c: int, k: int|
        0 <= c < clusters.len() && 0 <= k < clusters[c].len() && #[trigger] clusters[c][k] == i
}

/// The clusters are the connected components of the nodes at or above the
/// threshold: they list those nodes and no others, each once; every listed
/// node is joined to the first node of its cluster inside the cluster; and a
/// cluster holds every neighbour of its nodes that is at or above the
/// threshold. A cluster starts with its smallest node, and the clusters
/// come in the order of their first nodes.
pub open spec fn are_components(g: Seq<Voxel>, min_value: u64, clusters: Seq<Seq<usize>>) -> bool {
    &&& forall|c: int, k: int|
        0 <= c < clusters.len() && 0 <= k < clusters[c].len() ==> live(
            g,
            min_value,
            #[trigger] clusters[c][k] as int,
        )
    &&& forall|i: int| live(g, min_value, i) ==> #[trigger] listed(clusters, i)
    &&& forall|c: int, k: int, d: int, l: int|
        0 <= c < clusters.len() && 0 <= k < clusters[c].len() && 0 <= d < clusters.len() && 0 <= l
            < clusters[d].len() && #[trigger] clusters[c][k] == #[trigger] clusters[d][l] ==> c == d
            && k == l
    &&& forall|c: int| 0 <= c < clusters.len() ==> (#[trigger] clusters[c]).len() >= 1
    &&& forall|c: int, k: int|
        0 <= c < clusters.len() && 0 <= k < clusters[c].len() ==> joined_within(
            g,
            clusters[c],
            clusters[c][0] as int,
            #[trigger] clusters[c][k] as int,
        )
    &&& forall|c: int, k: int, j: int|
        0 <= c < clusters.len() && 0 <= k < clusters[c].len() && #[trigger] linked(
            g,
            clusters[c][k] as int,
            j,
        ) && live(g, min_value, j) ==> clusters[c].contains(j as usize)
    &&& forall|c: int, k: int|
        0 <= c < clusters.len() && 0 <= k < clusters[c].len() ==> clusters[c][0]
            <= #[trigger] clusters[c][k]
    &&& forall|c: int, d: int| 0 <= c < d < clusters.len() ==> clusters[c][0] < clusters[d][0]
}

/// The entries of `links` that are unvisited and at or above the threshold,
/// in their order.
pub open spec fn live_links(g: Seq<Voxel>, min_value: u64, links: Seq<usize>, visited: Seq<bool>) -> Seq<
    usize,
>
    decreases links.len(),
{
    if links.len() == 0 {
        Seq::empty()
    } else {
        let before = live_links(g, min_value, links.drop_last(), visited);
        if !visited[links.last() as int] && g[links.last() as int].value >= min_value {
            before.push(links.last())
        } else {
            before
        }
    }
}

/// The outcome of a flood fill that has collected `cluster` and has the
/// nodes `waiting` in line: the whole cluster with the flags of the
/// visited nodes. The first node in line joins the cluster unless it is
/// visited; its unvisited neighbours at or above the threshold go to the
/// end of the line.
pub open spec fn flood_order(
    g: Seq<Voxel>,
    min_value: u64,
    visited: Seq<bool>,
    cluster: Seq<usize>,
    waiting: Seq<usize>,
) -> (Seq<usize>, Seq<bool>)
    decreases g.len() - visited_count(visited), waiting.len(),
    when visited.len() == g.len() && forall|k: int|
        0 <= k < waiting.len() ==> (#[trigger] waiting[k]) < g.len()
    via flood_order_decreases
{
    if waiting.len() == 0 {
        (cluster, visited)
    } else {
        let vi = waiting[0];
        if visited[vi as int] {
            flood_order(g, min_value, visited, cluster, waiting.drop_first())
        } else {
            flood_order(
                g,
                min_value,
                visited.update(vi as int, true),
                cluster.push(vi),
                waiting.drop_first() + live_links(g, min_value, g[vi as int].voxel_links@, visited),
            )
        }
    }
}

#[via_fn]
proof fn flood_order_decreases(
    g: Seq<Voxel>,
    min_value: u64,
    visited: Seq<bool>,
    cluster: Seq<usize>,
    waiting: Seq<usize>,
) {
    if waiting.len() > 0 {
        lemma_visited_count(visited, waiting[0] as int);
        crate::tfce::progress::lemma_visited_count_bound(visited.update(waiting[0] as int, true));
    }
}

/// The clusters found from node `i` on, when the nodes flagged in
/// `visited` are in clusters already: each unvisited node at or above the
/// threshold starts a flood fill.
pub open spec fn components_from(g: Seq<Voxel>, min_value: u64, i: int, visited: Seq<bool>) -> Seq<
    Seq<usize>,
>
    decreases g.len() - i,
{
    if i < 0 || i >= g.len() {
        Seq::empty()
    } else if !visited[i] && g[i].value >= min_value {
        let (cluster, after) = flood_order(
            g,
            min_value,
            visited,
            Seq::empty(),
            seq![i as usize],
        );
        seq![cluster] + components_from(g, min_value, i + 1, after)
    } else {
        components_from(g, min_value, i + 1, visited)
    }
}

/// The clusters of the graph at the threshold `min_value`, in the order in
/// which `get_clusters` finds them and with the nodes of each in the order
/// of its flood fill.
pub open spec fn components(g: Seq<Voxel>, min_value: u64) -> Seq<Seq<usize>> {
    components_from(g, min_value, 0, Seq::new(g.len(), |i: int| false))
}

/// The lists of the clusters.
pub open spec fn cluster_lists(clusters: Seq<Vec<usize>>) -> Seq<Seq<usize>> {
    Seq::new(clusters.len(), |c: int| clusters[c]@)
}

/// What holds during one flood fill from `start`: the cluster so far, the
/// waiting nodes and the visited flags.
spec fn flooding(
    g: Seq<Voxel>,
    min_value: u64,
    start: int,
    before: Seq<bool>,
    visited: Seq<bool>,
    cluster: Seq<usize>,
    waiting: Seq<usize>,
) -> bool {
    &&& g.len() <= usize::MAX
    &&& visited.len() == g.len()
    &&& before.len() == g.len()
    &&& forall|j: int|
        0 <= j < g.len() ==> (#[trigger] visited[j] <==> before[j] || cluster.contains(j as usize))
    &&& forall|k: int|
        0 <= k < waiting.len() ==> live(g, min_value, #[trigger] waiting[k] as int) && (waiting[k]
            == start || exists|m: int|
            0 <= m < cluster.len() && linked(g, #[trigger] cluster[m] as int, waiting[k] as int))
    &&& forall|k: int|
        0 <= k < cluster.len() ==> live(g, min_value, #[trigger] cluster[k] as int)
            && !before[cluster[k] as int] && joined_within(g, cluster, start, cluster[k] as int)
    &&& cluster.no_duplicates()
    &&& cluster.len() > 0 ==> cluster[0] == start
    &&& cluster.len() == 0 ==> waiting == seq![start as usize]
}

/// Every neighbour at or above the threshold of a node of the cluster is
/// visited or waiting.
spec fn frontier_waiting(
    g: Seq<Voxel>,
    min_value: u64,
    visited: Seq<bool>,
    cluster: Seq<usize>,
    waiting: Seq<usize>,
) -> bool {
    forall|m: int, j: int|
        0 <= m < cluster.len() && #[trigger] linked(g, cluster[m] as int, j) && live(
            g,
            min_value,
            j,
        ) ==> visited[j] || waiting.contains(j as usize)
}

/// A path inside a cluster stays inside the cluster when it grows.
proof fn lemma_joined_grows(g: Seq<Voxel>, members: Seq<usize>, x: usize, a: int, b: int)
    requires
        joined_within(g, members, a, b),
    ensures
        joined_within(g, members.push(x), a, b),
{
    let p = choose|p: Seq<int>|
        {
            &&& #[trigger] is_path(g, p)
            &&& p.len() >= 1
            &&& p[0] == a
            &&& p[p.len() - 1] == b
            &&& forall|k: int| 0 <= k < p.len() ==> members.contains(p[k] as usize)
        };
    assert forall|k: int| 0 <= k < p.len() implies members.push(x).contains(p[k] as usize) by {
        let at = choose|at: int| 0 <= at < members.len() && members[at] == p[k] as usize;
        assert(members.push(x)[at] == p[k] as usize);
    }
}

/// A path inside a cluster to `b` goes on to a neighbour `x` of `b` once `x`
/// has joined the cluster.
proof fn lemma_joined_extends(g: Seq<Voxel>, members: Seq<usize>, x: usize, a: int, b: int)
    requires
        joined_within(g, members, a, b),
        linked(g, b, x as int),
    ensures
        joined_within(g, members.push(x), a, x as int),
{
    let p = choose|p: Seq<int>|
        {
            &&& #[trigger] is_path(g, p)
            &&& p.len() >= 1
            &&& p[0] == a
            &&& p[p.len() - 1] == b
            &&& forall|k: int| 0 <= k < p.len() ==> members.contains(p[k] as usize)
        };
    let q = p.push(x as int);
    assert forall|k: int| 0 <= k < q.len() implies members.push(x).contains(q[k] as usize) by {
        if k < p.len() {
            let at = choose|at: int| 0 <= at < members.len() && members[at] == p[k] as usize;
            assert(members.push(x)[at] == p[k] as usize);
        } else {
            assert(members.push(x)[members.len() as int] == x);
        }
    }
    assert(is_path(g, q)) by {
        assert forall|k: int| 0 <= k < q.len() - 1 implies #[trigger] linked(g, q[k], q[k + 1]) by {
            if k < p.len() - 1 {
                assert(linked(g, p[k], p[k + 1]));
            }
        }
    }
    assert(q[0] == a && q[q.len() - 1] == x as int);
}

/// A node is joined to itself.
proof fn lemma_joined_self(g: Seq<Voxel>, members: Seq<usize>, a: usize)
    requires
        members.contains(a),
    ensures
        joined_within(g, members, a as int, a as int),
{
    let p = seq![a as int];
    assert(is_path(g, p));
    assert(p[0] == a as int);
}

/// Puts every unvisited neighbour of `vi` that is at or above the threshold
/// at the end of the line.
fn enqueue_live_neighbors(
    voxels: &Vec<Voxel>,
    min_value: u64,
    vi: usize,
    visited: &Vec<bool>,
    queue: &mut VecDeque<usize>,
)
    requires
        vi < voxels.len(),
        links_in_range(voxels@),
        visited.len() == voxels.len(),
    ensures
        final(queue)@ == old(queue)@ + live_links(
            voxels@,
            min_value,
            voxels@[vi as int].voxel_links@,
            visited@,
        ),
        old(queue)@.is_prefix_of(final(queue)@),
        forall|k: int|
            old(queue)@.len() <= k < final(queue)@.len() ==> live(
                voxels@,
                min_value,
                #[trigger] final(queue)@[k] as int,
            ) && linked(voxels@, vi as int, final(queue)@[k] as int),
        forall|j: int|
            #[trigger] linked(voxels@, vi as int, j) && live(voxels@, min_value, j) ==> visited@[j]
                || final(queue)@.contains(j as usize),
{
    let links = &voxels[vi].voxel_links;
    let mut n: usize = 0;
    assert(links@.take(0) =~= Seq::<usize>::empty());
    assert(queue@ =~= old(queue)@ + live_links(voxels@, min_value, links@.take(0), visited@));
    while n < links.len()
        invariant
            0 <= n <= links.len(),
            vi < voxels.len(),
            links_in_range(voxels@),
            visited.len() == voxels.len(),
            links@ == voxels@[vi as int].voxel_links@,
            queue@ == old(queue)@ + live_links(
                voxels@,
                min_value,
                links@.take(n as int),
                visited@,
            ),
            old(queue)@.is_prefix_of(queue@),
            forall|k: int|
                old(queue)@.len() <= k < queue@.len() ==> live(
                    voxels@,
                    min_value,
                    #[trigger] queue@[k] as int,
                ) && linked(voxels@, vi as int, queue@[k] as int),
            forall|a: int|
                0 <= a < n && live(voxels@, min_value, #[trigger] links@[a] as int)
                    ==> visited@[links@[a] as int] || queue@.contains(links@[a]),
        decreases links.len() - n,
    {
        let ni: usize = links[n];
        assert(voxels@[vi as int].voxel_links@[n as int] < voxels.len());
        let ghost before = queue@;
        assert(links@.take(n + 1).drop_last() =~= links@.take(n as int));
        assert(links@.take(n + 1).last() == ni);
        if !visited[ni] && voxels[ni].value >= min_value {
            queue.push_back(ni);
            assert(queue@[before.len() as int] == ni);
            assert(linked(voxels@, vi as int, ni as int));
        }
        assert(queue@ =~= old(queue)@ + live_links(
            voxels@,
            min_value,
            links@.take(n + 1),
            visited@,
        ));
        assert forall|a: int|
            0 <= a < n + 1 && live(voxels@, min_value, #[trigger] links@[a] as int)
                implies visited@[links@[a] as int] || queue@.contains(links@[a]) by {
            if a < n {
                if before.contains(links@[a]) {
                    let at = choose|at: int| 0 <= at < before.len() && before[at] == links@[a];
                    assert(queue@[at] == links@[a]);
                }
            }
        }
        n += 1;
    }
    assert(links@.take(n as int) =~= links@);
    assert forall|j: int|
        #[trigger] linked(voxels@, vi as int, j) && live(voxels@, min_value, j) implies visited@[j]
        || queue@.contains(j as usize) by {
        let a = choose|a: int| 0 <= a < links@.len() && #[trigger] links@[a] == j;
        assert(live(voxels@, min_value, links@[a] as int));
    }
}

/// Collects the connected component of `start` among the nodes at or above
/// the threshold, breadth first, and marks its nodes visited.
fn flood(voxels: &Vec<Voxel>, min_value: u64, start: usize, visited: &mut Vec<bool>) -> (cluster:
    Vec<usize>)
    requires
        links_in_range(voxels@),
        old(visited).len() == voxels.len(),
        live(voxels@, min_value, start as int),
        !old(visited)@[start as int],
    ensures
        flooding(
            voxels@,
            min_value,
            start as int,
            old(visited)@,
            final(visited)@,
            cluster@,
            Seq::empty(),
        ),
        frontier_waiting(voxels@, min_value, final(visited)@, cluster@, Seq::empty()),
        cluster.len() >= 1,
        (cluster@, final(visited)@) == flood_order(
            voxels@,
            min_value,
            old(visited)@,
            Seq::empty(),
            seq![start],
        ),
{
    let ghost g = voxels@;
    let ghost before = visited@;
    let mut current_cluster: Vec<usize> = Vec::new();
    let mut queue: VecDeque<usize> = VecDeque::new();
    queue.push_back(start);
    assert(queue@ =~= seq![start]);
    loop
        invariant
            g == voxels@,
            before == old(visited)@,
            links_in_range(g),
            live(g, min_value, start as int),
            !before[start as int],
            flooding(g, min_value, start as int, before, visited@, current_cluster@, queue@),
            frontier_waiting(g, min_value, visited@, current_cluster@, queue@),
            flood_order(g, min_value, visited@, current_cluster@, queue@) == flood_order(
                g,
                min_value,
                before,
                Seq::empty(),
                seq![start],
            ),
        ensures
            flooding(
                g,
                min_value,
                start as int,
                before,
                visited@,
                current_cluster@,
                Seq::empty(),
            ),
            frontier_waiting(g, min_value, visited@, current_cluster@, Seq::empty()),
            current_cluster.len() >= 1,
            (current_cluster@, visited@) == flood_order(
                g,
                min_value,
                before,
                Seq::empty(),
                seq![start],
            ),
        decreases g.len() - visited_count(visited@), queue@.len(),
    {
        let ghost waiting = queue@;
        let ghost cluster = current_cluster@;
        let ghost flags = visited@;
        let vi: usize = match queue.pop_front() {
            Some(vi) => vi,
            None => {
                assert(queue@ =~= Seq::<usize>::empty());
                break ;
            },
        };
        let ghost rest = queue@;
        assert(rest =~= waiting.drop_first());
        assert(waiting[0] == vi);
        assert(live(g, min_value, vi as int));
        assert forall|k: int| 0 <= k < rest.len() implies rest[k] == waiting[k + 1] by {}
        if !visited[vi] {
            current_cluster.push(vi);
            let ghost grown = current_cluster@;
            proof {
                lemma_visited_count(flags, vi as int);
                assert(!cluster.contains(vi));
                assert(grown[cluster.len() as int] == vi);
                assert forall|m: int| 0 <= m < cluster.len() implies grown[m] == cluster[m] by {}
                assert(joined_within(g, grown, start as int, vi as int)) by {
                    if vi == start {
                        lemma_joined_self(g, grown, vi);
                    } else {
                        let m = choose|m: int|
                            0 <= m < cluster.len() && linked(
                                g,
                                #[trigger] cluster[m] as int,
                                vi as int,
                            );
                        lemma_joined_extends(g, cluster, vi, start as int, cluster[m] as int);
                    }
                }
                assert forall|k: int| 0 <= k < cluster.len() implies joined_within(
                    g,
                    grown,
                    start as int,
                    #[trigger] cluster[k] as int,
                ) by {
                    lemma_joined_grows(g, cluster, vi, start as int, cluster[k] as int);
                }
            }
            enqueue_live_neighbors(voxels, min_value, vi, visited, &mut queue);
            visited.set(vi, true);
            proof {
                let line = queue@;
                assert forall|k: int| 0 <= k < rest.len() implies line[k] == rest[k] by {}
                assert forall|j: int| 0 <= j < g.len() implies (#[trigger] visited@[j]
                    <==> before[j] || grown.contains(j as usize)) by {
                    if j == vi {
                    } else if cluster.contains(j as usize) {
                        let at = choose|at: int|
                            0 <= at < cluster.len() && cluster[at] == j as usize;
                        assert(grown[at] == j as usize);
                    } else if grown.contains(j as usize) {
                        let at = choose|at: int| 0 <= at < grown.len() && grown[at] == j as usize;
                        assert(cluster[at] == j as usize);
                    }
                }
                assert forall|k: int| 0 <= k < line.len() implies live(
                    g,
                    min_value,
                    #[trigger] line[k] as int,
                ) && (line[k] == start || exists|m: int|
                    0 <= m < grown.len() && linked(
                        g,
                        #[trigger] grown[m] as int,
                        line[k] as int,
                    )) by {
                    if k < rest.len() {
                        assert(line[k] == waiting[k + 1]);
                        if line[k] != start {
                            let m = choose|m: int|
                                0 <= m < cluster.len() && linked(
                                    g,
                                    #[trigger] cluster[m] as int,
                                    waiting[k + 1] as int,
                                );
                            assert(linked(g, grown[m] as int, line[k] as int));
                        }
                    } else {
                        assert(linked(g, grown[cluster.len() as int] as int, line[k] as int));
                    }
                }
                assert(grown.no_duplicates());
                assert forall|m: int, j: int|
                    0 <= m < grown.len() && #[trigger] linked(g, grown[m] as int, j) && live(
                        g,
                        min_value,
                        j,
                    ) implies visited@[j] || line.contains(j as usize) by {
                    if m < cluster.len() {
                        assert(linked(g, cluster[m] as int, j));
                        if !flags[j] && j != vi {
                            let at = choose|at: int|
                                0 <= at < waiting.len() && waiting[at] == j as usize;
                            assert(line[at - 1] == j as usize);
                        }
                    }
                }
            }
        } else {
            proof {
                assert(cluster.len() > 0) by {
                    if cluster.len() == 0 {
                        assert(!cluster.contains(start));
                    }
                }
                assert forall|k: int| 0 <= k < rest.len() implies live(
                    g,
                    min_value,
                    #[trigger] rest[k] as int,
                ) && (rest[k] == start || exists|m: int|
                    0 <= m < cluster.len() && linked(
                        g,
                        #[trigger] cluster[m] as int,
                        rest[k] as int,
                    )) by {
                    assert(rest[k] == waiting[k + 1]);
                }
                assert forall|m: int, j: int|
                    0 <= m < cluster.len() && #[trigger] linked(g, cluster[m] as int, j) && live(
                        g,
                        min_value,
                        j,
                    ) implies visited@[j] || rest.contains(j as usize) by {
                    if !flags[j] {
                        let at = choose|at: int|
                            0 <= at < waiting.len() && waiting[at] == j as usize;
                        assert(rest[at - 1] == j as usize);
                    }
                }
            }
        }
    }
    current_cluster
}

/// What holds between two rounds of the search: the clusters found so far
/// are complete components, and every node before `next` that is at or
/// above the threshold is in one of them.
spec fn components_before(
    g: Seq<Voxel>,
    min_value: u64,
    clusters: Seq<Seq<usize>>,
    visited: Seq<bool>,
    next: int,
) -> bool {
    &&& g.len() <= usize::MAX
    &&& visited.len() == g.len()
    &&& forall|j: int| 0 <= j < g.len() ==> (#[trigger] visited[j] <==> listed(clusters, j))
    &&& forall|j: int| 0 <= j < next && live(g, min_value, j) ==> #[trigger] visited[j]
    &&& forall|c: int| 0 <= c < clusters.len() ==> (#[trigger] clusters[c]).len() >= 1
            && clusters[c][0] < next
    &&& forall|c: int, k: int|
        0 <= c < clusters.len() && 0 <= k < clusters[c].len() ==> live(
            g,
            min_value,
            #[trigger] clusters[c][k] as int,
        )
    &&& forall|c: int, k: int, d: int, l: int|
        0 <= c < clusters.len() && 0 <= k < clusters[c].len() && 0 <= d < clusters.len() && 0 <= l
            < clusters[d].len() && #[trigger] clusters[c][k] == #[trigger] clusters[d][l] ==> c == d
            && k == l
    &&& forall|c: int, k: int|
        0 <= c < clusters.len() && 0 <= k < clusters[c].len() ==> joined_within(
            g,
            clusters[c],
            clusters[c][0] as int,
            #[trigger] clusters[c][k] as int,
        )
    &&& forall|c: int, k: int, j: int|
        0 <= c < clusters.len() && 0 <= k < clusters[c].len() && #[trigger] linked(
            g,
            clusters[c][k] as int,
            j,
        ) && live(g, min_value, j) ==> clusters[c].contains(j as usize)
    &&& forall|c: int, k: int|
        0 <= c < clusters.len() && 0 <= k < clusters[c].len() ==> clusters[c][0]
            <= #[trigger] clusters[c][k]
    &&& forall|c: int, d: int| 0 <= c < d < clusters.len() ==> clusters[c][0] < clusters[d][0]
}

/// A finished flood fill from `start` adds one complete component.
proof fn lemma_component_added(
    g: Seq<Voxel>,
    min_value: u64,
    clusters: Seq<Seq<usize>>,
    before: Seq<bool>,
    visited: Seq<bool>,
    cluster: Seq<usize>,
    start: int,
)
    requires
        links_in_range(g),
        symmetric(g),
        components_before(g, min_value, clusters, before, start),
        live(g, min_value, start),
        !before[start],
        flooding(g, min_value, start, before, visited, cluster, Seq::empty()),
        frontier_waiting(g, min_value, visited, cluster, Seq::empty()),
        cluster.len() >= 1,
    ensures
        components_before(g, min_value, clusters.push(cluster), visited, start + 1),
{
    let grown = clusters.push(cluster);
    let last = clusters.len() as int;
    assert(grown[last] == cluster);
    assert forall|c: int| 0 <= c < clusters.len() implies grown[c] == clusters[c] by {}
    assert forall|j: int| listed(clusters, j) implies listed(grown, j) by {
        let (c, k) = choose|c: int, k: int|
            0 <= c < clusters.len() && 0 <= k < clusters[c].len() && #[trigger] clusters[c][k]
                == j;
        assert(grown[c][k] == j);
    }
    assert forall|j: int| 0 <= j < g.len() implies (#[trigger] visited[j] <==> listed(
        grown,
        j,
    )) by {
        if cluster.contains(j as usize) {
            let k = choose|k: int| 0 <= k < cluster.len() && cluster[k] == j as usize;
            assert(grown[last][k] == j);
        }
        if listed(grown, j) {
            let (c, k) = choose|c: int, k: int|
                0 <= c < grown.len() && 0 <= k < grown[c].len() && #[trigger] grown[c][k] == j;
            if c < last {
                assert(clusters[c][k] == j);
                assert(listed(clusters, j));
            } else {
                assert(cluster[k] == j as usize);
            }
        }
    }
    assert(grown[last][0] == start);
    assert forall|c: int, k: int, d: int, l: int|
        0 <= c < grown.len() && 0 <= k < grown[c].len() && 0 <= d < grown.len() && 0 <= l
            < grown[d].len() && #[trigger] grown[c][k] == #[trigger] grown[d][l] implies c == d
        && k == l by {
        if c < last && d == last {
            assert(clusters[c][k] == cluster[l]);
            assert(listed(clusters, cluster[l] as int));
        } else if c == last && d < last {
            assert(clusters[d][l] == cluster[k]);
            assert(listed(clusters, cluster[k] as int));
        } else if c < last && d < last {
            assert(clusters[c][k] == clusters[d][l]);
        }
    }
    assert forall|c: int, k: int, j: int|
        0 <= c < grown.len() && 0 <= k < grown[c].len() && #[trigger] linked(
            g,
            grown[c][k] as int,
            j,
        ) && live(g, min_value, j) implies grown[c].contains(j as usize) by {
        if c == last {
            assert(linked(g, cluster[k] as int, j));
            assert(visited[j]);
            if !cluster.contains(j as usize) {
                assert(listed(clusters, j));
                let (d, l) = choose|d: int, l: int|
                    0 <= d < clusters.len() && 0 <= l < clusters[d].len()
                        && #[trigger] clusters[d][l] == j;
                assert(linked(g, j, cluster[k] as int));
                assert(linked(g, clusters[d][l] as int, cluster[k] as int));
                assert(clusters[d].contains(cluster[k]));
                let at = choose|at: int|
                    0 <= at < clusters[d].len() && clusters[d][at] == cluster[k];
                assert(listed(clusters, cluster[k] as int));
            }
        } else {
            assert(linked(g, clusters[c][k] as int, j));
        }
    }
    assert forall|c: int, k: int| 0 <= c < grown.len() && 0 <= k < grown[c].len() implies grown[c][0]
        <= #[trigger] grown[c][k] by {
        if c == last {
            assert(live(g, min_value, cluster[k] as int) && !before[cluster[k] as int]);
        } else {
            assert(clusters[c][0] <= clusters[c][k]);
        }
    }
    assert forall|c: int, k: int| 0 <= c < grown.len() && 0 <= k < grown[c].len() implies live(
        g,
        min_value,
        #[trigger] grown[c][k] as int,
    ) && joined_within(g, grown[c], grown[c][0] as int, grown[c][k] as int) by {
        if c == last {
            assert(live(g, min_value, cluster[k] as int));
        } else {
            assert(live(g, min_value, clusters[c][k] as int));
        }
    }
    assert forall|j: int| 0 <= j < start + 1 && live(g, min_value, j) implies #[trigger] visited[j] by {
        if j == start {
            assert(cluster[0] == start);
            assert(cluster.contains(start as usize));
        } else {
            assert(before[j]);
        }
    }
}

/// The connected components of the nodes whose value is at least
/// `min_value`, one list of node indices for each.
pub fn get_clusters(voxels: &Vec<Voxel>, min_value: u64) -> (clusters: Vec<Vec<usize>>)
    requires
        links_in_range(voxels@),
        symmetric(voxels@),
    ensures
        cluster_lists(clusters@) == components(voxels@, min_value),
        are_components(voxels@, min_value, cluster_lists(clusters@)),
{
    let ghost g = voxels@;
    let mut visited: Vec<bool> = Vec::new();
    let mut i: usize = 0;
    while i < voxels.len()
        invariant
            i <= voxels.len(),
            visited.len() == i,
            forall|j: int| 0 <= j < i ==> !visited@[j],
        decreases voxels.len() - i,
    {
        visited.push(false);
        i += 1;
    }

    let mut clusters: Vec<Vec<usize>> = Vec::new();
    let mut i: usize = 0;
    assert(cluster_lists(clusters@) =~= Seq::<Seq<usize>>::empty());
    assert(visited@ =~= Seq::new(g.len(), |i: int| false));
    while i < voxels.len()
        invariant
            g == voxels@,
            links_in_range(g),
            symmetric(g),
            0 <= i <= voxels.len(),
            components_before(g, min_value, cluster_lists(clusters@), visited@, i as int),
            cluster_lists(clusters@) + components_from(g, min_value, i as int, visited@)
                == components(g, min_value),
        decreases voxels.len() - i,
    {
        if !visited[i] && voxels[i].value >= min_value {
            let ghost before = visited@;
            let ghost found = cluster_lists(clusters@);
            let current_cluster = flood(voxels, min_value, i, &mut visited);
            proof {
                lemma_component_added(
                    g,
                    min_value,
                    found,
                    before,
                    visited@,
                    current_cluster@,
                    i as int,
                );
            }
            clusters.push(current_cluster);
            assert(cluster_lists(clusters@) =~= found.push(current_cluster@));
            assert(cluster_lists(clusters@) + components_from(g, min_value, i + 1, visited@)
                =~= found + (seq![current_cluster@] + components_from(
                g,
                min_value,
                i + 1,
                visited@,
            )));
        }
        i += 1;
    }
    assert(cluster_lists(clusters@) + Seq::<Seq<usize>>::empty() =~= cluster_lists(clusters@));
    assert forall|j: int| live(g, min_value, j) implies #[trigger] listed(
        cluster_lists(clusters@),
        j,
    ) by {
        assert(visited@[j]);
    }
    clusters
}

} // verus!
