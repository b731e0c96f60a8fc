//! Graphs from triangulated surfaces, and their extension along time.

use vstd::prelude::*;

use crate::fiff::{
    blocks_of, contents, directory, find_and_read_tag, find_blocks, open, rows_of, tag_data,
    tag_of_kind, Block, FiffError, TagContent, TagData, Tree, BLOCK_MNE_SOURCE_SPACE,
    KIND_MNE_SOURCE_SPACE_USED_TRIANGLES, KIND_MNE_SOURCE_SPACE_USED_VERTEX_COUNT,
};
use crate::voxel::{
    connected, is_path, lemma_connected_through, lemma_reachable_joined, lemma_reachable_link,
    lemma_reachable_self, linked, links_in_range, no_self_loops, reachable, symmetric,
    valid_graph, Voxel, ZERO_VALUE,
};

verus! {

/// The adjacency lists of the graph.
pub open spec fn link_lists(g: Seq<Voxel>) -> Seq<Seq<usize>> {
    Seq::new(g.len(), |i: int| g[i].voxel_links@)
}

/// The node of vertex number `vertex` (vertex numbers start at one) in a
/// hemisphere whose nodes start at `offset`.
pub open spec fn vertex_node(offset: int, vertex: i32) -> usize {
    (offset + vertex - 1) as usize
}

/// Every corner of every triangle is a vertex number from 1 to `count`.
pub open spec fn corners_in_range(triangles: Seq<Seq<i32>>, count: int) -> bool {
    forall|t: int, p: int|
        0 <= t < triangles.len() && 0 <= p < triangles[t].len() ==> 1 <= (
        #[trigger] triangles[t][p]) <= count
}

/// `links` after the first `upto` corners of `triangle` have been linked
/// from the corner `src`: each corner other than `src` is added unless it
/// is there already.
pub open spec fn with_corners(
    links: Seq<usize>,
    triangle: Seq<i32>,
    src: i32,
    offset: int,
    upto: int,
) -> Seq<usize>
    decreases upto,
{
    if upto <= 0 {
        links
    } else {
        let before = with_corners(links, triangle, src, offset, upto - 1);
        let dst = triangle[upto - 1];
        if src != dst && !before.contains(vertex_node(offset, dst)) {
            before.push(vertex_node(offset, dst))
        } else {
            before
        }
    }
}

/// The adjacency lists after the first `upto` corners of `triangle` have
/// each been linked to the other corners.
pub open spec fn with_triangle(
    lists: Seq<Seq<usize>>,
    triangle: Seq<i32>,
    offset: int,
    upto: int,
) -> Seq<Seq<usize>>
    decreases upto,
{
    if upto <= 0 {
        lists
    } else {
        let before = with_triangle(lists, triangle, offset, upto - 1);
        let src = triangle[upto - 1];
        let node = vertex_node(offset, src) as int;
        before.update(
            node,
            with_corners(before[node], triangle, src, offset, triangle.len() as int),
        )
    }
}

/// The adjacency lists after the first `upto` triangles have been added.
pub open spec fn with_triangles(
    lists: Seq<Seq<usize>>,
    triangles: Seq<Seq<i32>>,
    offset: int,
    upto: int,
) -> Seq<Seq<usize>>
    decreases upto,
{
    if upto <= 0 {
        lists
    } else {
        let before = with_triangles(lists, triangles, offset, upto - 1);
        with_triangle(before, triangles[upto - 1], offset, triangles[upto - 1].len() as int)
    }
}

/// The adjacency lists of the surface mesh of two hemispheres: the nodes of
/// the left one first, then those of the right one; the triangles of the
/// left one added first.
pub open spec fn mesh_lists(
    lh_vertex_count: int,
    lh_triangles: Seq<Seq<i32>>,
    rh_vertex_count: int,
    rh_triangles: Seq<Seq<i32>>,
) -> Seq<Seq<usize>> {
    let bare = Seq::new((lh_vertex_count + rh_vertex_count) as nat, |i: int| Seq::<usize>::empty());
    let left = with_triangles(bare, lh_triangles, 0, lh_triangles.len() as int);
    with_triangles(left, rh_triangles, lh_vertex_count, rh_triangles.len() as int)
}

/// Corner `q` of the triangle is another vertex than `src`, and its node
/// is `x`.
pub open spec fn corner_to(triangle: Seq<i32>, src: i32, offset: int, q: int, x: usize) -> bool {
    0 <= q < triangle.len() && triangle[q] != src && vertex_node(offset, triangle[q]) == x
}

/// Corners `p` and `q` of the triangle are different vertices, whose nodes
/// are `i` and `x`.
pub open spec fn corner_pair(triangle: Seq<i32>, offset: int, p: int, q: int, i: int, x: usize) -> bool {
    0 <= p < triangle.len() && vertex_node(offset, triangle[p]) == i && corner_to(
        triangle,
        triangle[p],
        offset,
        q,
        x,
    )
}

/// Among the first `upto` triangles one has two different vertices whose
/// nodes are `i` and `x`.
pub open spec fn share_triangle(
    triangles: Seq<Seq<i32>>,
    offset: int,
    upto: int,
    i: int,
    x: usize,
) -> bool {
    exists|t: int, p: int, q: int|
        0 <= t < upto && t < triangles.len() && #[trigger] corner_pair(
            triangles[t],
            offset,
            p,
            q,
            i,
            x,
        )
}

/// What linking from one corner adds: the nodes of the other vertices among
/// the corners.
pub proof fn lemma_with_corners(
    links: Seq<usize>,
    triangle: Seq<i32>,
    src: i32,
    offset: int,
    upto: int,
    x: usize,
)
    requires
        0 <= upto <= triangle.len(),
    ensures
        with_corners(links, triangle, src, offset, upto).contains(x) <==> links.contains(x)
            || exists|q: int| q < upto && #[trigger] corner_to(triangle, src, offset, q, x),
    decreases upto,
{
    if upto > 0 {
        let before = with_corners(links, triangle, src, offset, upto - 1);
        let after = with_corners(links, triangle, src, offset, upto);
        lemma_with_corners(links, triangle, src, offset, upto - 1, x);
        let dst = triangle[upto - 1];
        let node = vertex_node(offset, dst);
        if src != dst && !before.contains(node) {
            assert(after == before.push(node));
            assert(after[before.len() as int] == node);
            if before.contains(x) {
                let at = choose|at: int| 0 <= at < before.len() && before[at] == x;
                assert(after[at] == x);
            }
            if after.contains(x) {
                let at = choose|at: int| 0 <= at < after.len() && after[at] == x;
                if at < before.len() {
                    assert(before[at] == x);
                } else {
                    assert(corner_to(triangle, src, offset, upto - 1, x));
                }
            }
        }
        if exists|q: int| q < upto && #[trigger] corner_to(triangle, src, offset, q, x) {
            let q = choose|q: int| q < upto && #[trigger] corner_to(triangle, src, offset, q, x);
            if q == upto - 1 {
                assert(after.contains(x));
            }
        }
    }
}

/// What linking the first corners of a triangle adds to the list of node
/// `i`: the nodes of the other vertices, if `i` is the node of one of those
/// corners.
pub proof fn lemma_with_triangle(
    lists: Seq<Seq<usize>>,
    triangle: Seq<i32>,
    offset: int,
    upto: int,
    i: int,
    x: usize,
)
    requires
        0 <= upto <= triangle.len(),
        0 <= i < lists.len(),
        forall|p: int|
            0 <= p < triangle.len() ==> 0 <= #[trigger] vertex_node(offset, triangle[p])
                < lists.len(),
    ensures
        with_triangle(lists, triangle, offset, upto).len() == lists.len(),
        with_triangle(lists, triangle, offset, upto)[i].contains(x) <==> lists[i].contains(x)
            || exists|p: int, q: int| p < upto && #[trigger] corner_pair(triangle, offset, p, q, i, x),
    decreases upto,
{
    if upto > 0 {
        let before = with_triangle(lists, triangle, offset, upto - 1);
        let after = with_triangle(lists, triangle, offset, upto);
        lemma_with_triangle(lists, triangle, offset, upto - 1, i, x);
        let src = triangle[upto - 1];
        let node = vertex_node(offset, src) as int;
        assert(0 <= vertex_node(offset, triangle[upto - 1]) < lists.len());
        lemma_with_corners(before[node], triangle, src, offset, triangle.len() as int, x);
        if node == i {
            if exists|q: int|
                q < triangle.len() && #[trigger] corner_to(triangle, src, offset, q, x) {
                let q = choose|q: int|
                    q < triangle.len() && #[trigger] corner_to(triangle, src, offset, q, x);
                assert(corner_pair(triangle, offset, upto - 1, q, i, x));
            }
        }
        if exists|p: int, q: int|
            p < upto && #[trigger] corner_pair(triangle, offset, p, q, i, x) {
            let (p, q) = choose|p: int, q: int|
                p < upto && #[trigger] corner_pair(triangle, offset, p, q, i, x);
            if p == upto - 1 {
                assert(corner_to(triangle, src, offset, q, x));
            }
        }
    }
}

/// Adding triangles adds no node.
pub proof fn lemma_with_triangles_len(
    lists: Seq<Seq<usize>>,
    triangles: Seq<Seq<i32>>,
    offset: int,
    upto: int,
)
    requires
        0 <= upto <= triangles.len(),
        forall|t: int, p: int|
            0 <= t < triangles.len() && 0 <= p < triangles[t].len() ==> 0 <= #[trigger] vertex_node(
                offset,
                triangles[t][p],
            ) < lists.len(),
    ensures
        with_triangles(lists, triangles, offset, upto).len() == lists.len(),
    decreases upto,
{
    if upto > 0 {
        lemma_with_triangles_len(lists, triangles, offset, upto - 1);
        let before = with_triangles(lists, triangles, offset, upto - 1);
        let triangle = triangles[upto - 1];
        assert forall|p: int| 0 <= p < triangle.len() implies 0 <= #[trigger] vertex_node(
            offset,
            triangle[p],
        ) < before.len() by {
            assert(0 <= vertex_node(offset, triangles[upto - 1][p]) < lists.len());
        }
        lemma_with_triangle_len(before, triangle, offset, triangle.len() as int);
    }
}

/// Linking the corners of a triangle adds no node.
pub proof fn lemma_with_triangle_len(
    lists: Seq<Seq<usize>>,
    triangle: Seq<i32>,
    offset: int,
    upto: int,
)
    requires
        0 <= upto <= triangle.len(),
        forall|p: int|
            0 <= p < triangle.len() ==> 0 <= #[trigger] vertex_node(offset, triangle[p])
                < lists.len(),
    ensures
        with_triangle(lists, triangle, offset, upto).len() == lists.len(),
    decreases upto,
{
    if upto > 0 {
        lemma_with_triangle_len(lists, triangle, offset, upto - 1);
        assert(0 <= vertex_node(offset, triangle[upto - 1]) < lists.len());
    }
}

/// What the first triangles add to the list of node `i`: the nodes that
/// share a triangle with it.
pub proof fn lemma_with_triangles(
    lists: Seq<Seq<usize>>,
    triangles: Seq<Seq<i32>>,
    offset: int,
    upto: int,
    i: int,
    x: usize,
)
    requires
        0 <= upto <= triangles.len(),
        0 <= i < lists.len(),
        forall|t: int, p: int|
            0 <= t < triangles.len() && 0 <= p < triangles[t].len() ==> 0 <= #[trigger] vertex_node(
                offset,
                triangles[t][p],
            ) < lists.len(),
    ensures
        with_triangles(lists, triangles, offset, upto).len() == lists.len(),
        with_triangles(lists, triangles, offset, upto)[i].contains(x) <==> lists[i].contains(x)
            || share_triangle(triangles, offset, upto, i, x),
    decreases upto,
{
    if upto > 0 {
        let before = with_triangles(lists, triangles, offset, upto - 1);
        let triangle = triangles[upto - 1];
        lemma_with_triangles(lists, triangles, offset, upto - 1, i, x);
        assert forall|p: int| 0 <= p < triangle.len() implies 0 <= #[trigger] vertex_node(
            offset,
            triangle[p],
        ) < before.len() by {
            assert(0 <= vertex_node(offset, triangles[upto - 1][p]) < lists.len());
        }
        lemma_with_triangle(before, triangle, offset, triangle.len() as int, i, x);
        if exists|p: int, q: int|
            p < triangle.len() && #[trigger] corner_pair(triangle, offset, p, q, i, x) {
            let (p, q) = choose|p: int, q: int|
                p < triangle.len() && #[trigger] corner_pair(triangle, offset, p, q, i, x);
            assert(corner_pair(triangles[upto - 1], offset, p, q, i, x));
        }
        if share_triangle(triangles, offset, upto - 1, i, x) {
            let (t, p, q) = choose|t: int, p: int, q: int|
                0 <= t < upto - 1 && t < triangles.len() && #[trigger] corner_pair(
                    triangles[t],
                    offset,
                    p,
                    q,
                    i,
                    x,
                );
            assert(corner_pair(triangles[t], offset, p, q, i, x));
        }
        if share_triangle(triangles, offset, upto, i, x) {
            let (t, p, q) = choose|t: int, p: int, q: int|
                0 <= t < upto && t < triangles.len() && #[trigger] corner_pair(
                    triangles[t],
                    offset,
                    p,
                    q,
                    i,
                    x,
                );
            if t < upto - 1 {
                assert(share_triangle(triangles, offset, upto - 1, i, x));
            }
        }
    }
}

/// The nodes of `g` are linked as the surface mesh links them: two nodes
/// are linked if and only if they are the nodes of two different vertices
/// of one triangle of their hemisphere. Such a graph has adjacency lists
/// that stay inside the graph, are symmetric and hold no self-loop.
pub proof fn lemma_mesh_adjacency(
    g: Seq<Voxel>,
    lh_vertex_count: int,
    lh_triangles: Seq<Seq<i32>>,
    rh_vertex_count: int,
    rh_triangles: Seq<Seq<i32>>,
)
    requires
        0 <= lh_vertex_count,
        0 <= rh_vertex_count,
        lh_vertex_count + rh_vertex_count <= usize::MAX,
        corners_in_range(lh_triangles, lh_vertex_count),
        corners_in_range(rh_triangles, rh_vertex_count),
        link_lists(g) == mesh_lists(lh_vertex_count, lh_triangles, rh_vertex_count, rh_triangles),
    ensures
        g.len() == lh_vertex_count + rh_vertex_count,
        forall|i: int, j: int|
            0 <= i < g.len() && 0 <= j <= usize::MAX ==> (#[trigger] linked(g, i, j)
                <==> share_triangle(lh_triangles, 0, lh_triangles.len() as int, i, j as usize)
                || share_triangle(
                rh_triangles,
                lh_vertex_count,
                rh_triangles.len() as int,
                i,
                j as usize,
            )),
        links_in_range(g),
        symmetric(g),
        no_self_loops(g),
{
    let total = lh_vertex_count + rh_vertex_count;
    let bare = Seq::new(total as nat, |i: int| Seq::<usize>::empty());
    let lh_all = lh_triangles.len() as int;
    let rh_all = rh_triangles.len() as int;
    let left = with_triangles(bare, lh_triangles, 0, lh_all);
    let lists = with_triangles(left, rh_triangles, lh_vertex_count, rh_all);
    assert forall|t: int, p: int|
        0 <= t < lh_triangles.len() && 0 <= p < lh_triangles[t].len() implies 0
        <= #[trigger] vertex_node(0, lh_triangles[t][p]) < bare.len() by {
        assert(1 <= lh_triangles[t][p] <= lh_vertex_count);
    }
    lemma_with_triangles_len(bare, lh_triangles, 0, lh_all);
    assert forall|t: int, p: int|
        0 <= t < rh_triangles.len() && 0 <= p < rh_triangles[t].len() implies 0
        <= #[trigger] vertex_node(lh_vertex_count, rh_triangles[t][p]) < left.len() by {
        assert(1 <= rh_triangles[t][p] <= rh_vertex_count);
    }
    lemma_with_triangles_len(left, rh_triangles, lh_vertex_count, rh_all);
    assert(link_lists(g).len() == g.len());
    assert forall|i: int, j: int| 0 <= i < g.len() && 0 <= j <= usize::MAX implies (
    #[trigger] linked(g, i, j) <==> share_triangle(lh_triangles, 0, lh_all, i, j as usize)
        || share_triangle(rh_triangles, lh_vertex_count, rh_all, i, j as usize)) by {
        lemma_with_triangles(bare, lh_triangles, 0, lh_all, i, j as usize);
        lemma_with_triangles(left, rh_triangles, lh_vertex_count, rh_all, i, j as usize);
        assert(link_lists(g)[i] == g[i].voxel_links@);
        assert(!bare[i].contains(j as usize));
        let links = g[i].voxel_links@;
        if linked(g, i, j) {
            let k = choose|k: int| 0 <= k < links.len() && #[trigger] links[k] == j;
            assert(links[k] == j as usize);
            assert(links.contains(j as usize));
        }
        if links.contains(j as usize) {
            let k = choose|k: int| 0 <= k < links.len() && links[k] == j as usize;
            assert(links[k] == j);
        }
    }
    assert forall|i: int, j: int| #[trigger] linked(g, i, j) implies linked(g, j, i) && i != j
        && 0 <= j < g.len() by {
        let x = j as usize;
        if share_triangle(lh_triangles, 0, lh_all, i, x) {
            let (t, p, q) = choose|t: int, p: int, q: int|
                0 <= t < lh_all && t < lh_triangles.len() && #[trigger] corner_pair(
                    lh_triangles[t],
                    0,
                    p,
                    q,
                    i,
                    x,
                );
            assert(1 <= lh_triangles[t][p] <= lh_vertex_count);
            assert(1 <= lh_triangles[t][q] <= lh_vertex_count);
            assert(corner_pair(lh_triangles[t], 0, q, p, j, i as usize));
            assert(share_triangle(lh_triangles, 0, lh_all, j, i as usize));
        } else {
            let (t, p, q) = choose|t: int, p: int, q: int|
                0 <= t < rh_all && t < rh_triangles.len() && #[trigger] corner_pair(
                    rh_triangles[t],
                    lh_vertex_count,
                    p,
                    q,
                    i,
                    x,
                );
            assert(1 <= rh_triangles[t][p] <= rh_vertex_count);
            assert(1 <= rh_triangles[t][q] <= rh_vertex_count);
            assert(corner_pair(rh_triangles[t], lh_vertex_count, q, p, j, i as usize));
            assert(share_triangle(rh_triangles, lh_vertex_count, rh_all, j, i as usize));
        }
    }
    assert forall|i: int, k: int|
        0 <= i < g.len() && 0 <= k < g[i].voxel_links@.len() implies (
    #[trigger] g[i].voxel_links@[k]) < g.len() by {
        assert(linked(g, i, g[i].voxel_links@[k] as int));
    }
}

/// Whether every corner of every triangle is a vertex number from 1 to
/// `count`.
pub fn check_corners(triangles: &Vec<Vec<i32>>, count: usize) -> (ok: bool)
    ensures
        ok == corners_in_range(rows_of(triangles@), count as int),
{
    let mut t: usize = 0;
    while t < triangles.len()
        invariant
            0 <= t <= triangles.len(),
            forall|a: int, p: int|
                0 <= a < t && 0 <= p < triangles@[a]@.len() ==> 1 <= (#[trigger] triangles@[a]@[p])
                    <= count,
        decreases triangles.len() - t,
    {
        let triangle = &triangles[t];
        let mut p: usize = 0;
        while p < triangle.len()
            invariant
                0 <= p <= triangle.len(),
                0 <= t < triangles.len(),
                triangle@ == triangles@[t as int]@,
                forall|q: int| 0 <= q < p ==> 1 <= (#[trigger] triangle@[q]) <= count,
            decreases triangle.len() - p,
        {
            let corner: i32 = triangle[p];
            if corner < 1 || (corner - 1) as usize >= count {
                assert(!(1 <= rows_of(triangles@)[t as int][p as int] <= count));
                return false;
            }
            p += 1;
        }
        t += 1;
    }
    assert forall|a: int, p: int|
        0 <= a < rows_of(triangles@).len() && 0 <= p < rows_of(triangles@)[a].len() implies 1 <= (
    #[trigger] rows_of(triangles@)[a][p]) <= count by {
        assert(1 <= triangles@[a]@[p] <= count);
    }
    true
}

/// Whether `links` holds `node`.
fn has_link(links: &Vec<usize>, node: usize) -> (found: bool)
    ensures
        found == links@.contains(node),
{
    let mut k: usize = 0;
    while k < links.len()
        invariant
            0 <= k <= links.len(),
            forall|j: int| 0 <= j < k ==> links@[j] != node,
        decreases links.len() - k,
    {
        if links[k] == node {
            return true;
        }
        k += 1;
    }
    false
}

/// Links the corner at `at` of `triangle` to the other corners.
fn link_corner(voxels: &mut Vec<Voxel>, triangle: &Vec<i32>, at: usize, offset: usize, count: usize)
    requires
        at < triangle.len(),
        offset + count <= old(voxels).len(),
        forall|p: int| 0 <= p < triangle@.len() ==> 1 <= (#[trigger] triangle@[p]) <= count,
    ensures
        final(voxels).len() == old(voxels).len(),
        link_lists(final(voxels)@) == link_lists(old(voxels)@).update(
            vertex_node(offset as int, triangle@[at as int]) as int,
            with_corners(
                old(voxels)@[vertex_node(offset as int, triangle@[at as int]) as int].voxel_links@,
                triangle@,
                triangle@[at as int],
                offset as int,
                triangle@.len() as int,
            ),
        ),
        forall|i: int| 0 <= i < old(voxels).len() ==> (#[trigger] final(voxels)@[i]).value == old(
            voxels,
        )@[i].value,
{
    let src_vertex: i32 = triangle[at];
    let src_vertex_index: usize = offset + (src_vertex - 1) as usize;
    let ghost before = voxels@;
    let ghost start = before[src_vertex_index as int].voxel_links@;
    let links = &mut voxels[src_vertex_index].voxel_links;
    let mut p: usize = 0;
    while p < triangle.len()
        invariant
            0 <= p <= triangle.len(),
            offset + count <= usize::MAX,
            src_vertex == triangle@[at as int],
            forall|q: int| 0 <= q < triangle@.len() ==> 1 <= (#[trigger] triangle@[q]) <= count,
            links@ == with_corners(start, triangle@, src_vertex, offset as int, p as int),
        decreases triangle.len() - p,
    {
        let dst_vertex: i32 = triangle[p];
        let dst_vertex_index: usize = offset + (dst_vertex - 1) as usize;
        if src_vertex != dst_vertex && !has_link(links, dst_vertex_index) {
            links.push(dst_vertex_index);
        }
        p += 1;
    }
    assert(link_lists(voxels@) =~= link_lists(before).update(
        src_vertex_index as int,
        with_corners(start, triangle@, src_vertex, offset as int, triangle@.len() as int),
    ));
}

/// Adds the triangles of one hemisphere, whose `count` nodes start at
/// `offset`: the corners of each triangle are linked to one another.
fn add_triangles(voxels: &mut Vec<Voxel>, triangles: &Vec<Vec<i32>>, offset: usize, count: usize)
    requires
        offset + count <= old(voxels).len(),
        corners_in_range(rows_of(triangles@), count as int),
    ensures
        final(voxels).len() == old(voxels).len(),
        link_lists(final(voxels)@) == with_triangles(
            link_lists(old(voxels)@),
            rows_of(triangles@),
            offset as int,
            triangles@.len() as int,
        ),
        forall|i: int| 0 <= i < old(voxels).len() ==> (#[trigger] final(voxels)@[i]).value == old(
            voxels,
        )@[i].value,
{
    let mut t: usize = 0;
    while t < triangles.len()
        invariant
            0 <= t <= triangles.len(),
            voxels.len() == old(voxels).len(),
            offset + count <= voxels.len(),
            corners_in_range(rows_of(triangles@), count as int),
            link_lists(voxels@) == with_triangles(
                link_lists(old(voxels)@),
                rows_of(triangles@),
                offset as int,
                t as int,
            ),
            forall|i: int| 0 <= i < voxels.len() ==> (#[trigger] voxels@[i]).value == old(
                voxels,
            )@[i].value,
        decreases triangles.len() - t,
    {
        let triangle = &triangles[t];
        let ghost begun = link_lists(voxels@);
        let mut s: usize = 0;
        while s < triangle.len()
            invariant
                0 <= s <= triangle.len(),
                0 <= t < triangles.len(),
                triangle@ == triangles@[t as int]@,
                voxels.len() == old(voxels).len(),
                offset + count <= voxels.len(),
                corners_in_range(rows_of(triangles@), count as int),
                link_lists(voxels@) == with_triangle(begun, triangle@, offset as int, s as int),
                forall|i: int| 0 <= i < voxels.len() ==> (#[trigger] voxels@[i]).value == old(
                    voxels,
                )@[i].value,
            decreases triangle.len() - s,
        {
            assert forall|p: int| 0 <= p < triangle@.len() implies 1 <= (#[trigger] triangle@[p])
                <= count by {
                assert(rows_of(triangles@)[t as int][p] == triangle@[p]);
            }
            let ghost node = vertex_node(offset as int, triangle@[s as int]) as int;
            assert(link_lists(voxels@)[node] == voxels@[node].voxel_links@);
            link_corner(voxels, triangle, s, offset, count);
            s += 1;
        }
        t += 1;
    }
}

/// The graph of a surface mesh of two hemispheres: one node for each
/// vertex, those of the left hemisphere first, and a link between any two
/// vertices that are corners of one triangle. Every value is zero.
pub fn triangles_to_graph(
    lh_vertex_count: usize,
    lh_triangles: Vec<Vec<i32>>,
    rh_vertex_count: usize,
    rh_triangles: Vec<Vec<i32>>,
) -> (voxels: Vec<Voxel>)
    requires
        lh_vertex_count + rh_vertex_count <= usize::MAX,
        corners_in_range(rows_of(lh_triangles@), lh_vertex_count as int),
        corners_in_range(rows_of(rh_triangles@), rh_vertex_count as int),
    ensures
        voxels.len() == lh_vertex_count + rh_vertex_count,
        link_lists(voxels@) == mesh_lists(
            lh_vertex_count as int,
            rows_of(lh_triangles@),
            rh_vertex_count as int,
            rows_of(rh_triangles@),
        ),
        forall|i: int| 0 <= i < voxels.len() ==> (#[trigger] voxels@[i]).value == ZERO_VALUE,
        links_in_range(voxels@),
        symmetric(voxels@),
        no_self_loops(voxels@),
{
    let total: usize = lh_vertex_count + rh_vertex_count;
    let mut voxels: Vec<Voxel> = Vec::new();
    let mut i: usize = 0;
    while i < total
        invariant
            0 <= i <= total,
            voxels.len() == i,
            forall|j: int| 0 <= j < i ==> (#[trigger] voxels@[j]).voxel_links@ == Seq::<
                usize,
            >::empty(),
            forall|j: int| 0 <= j < i ==> (#[trigger] voxels@[j]).value == ZERO_VALUE,
        decreases total - i,
    {
        voxels.push(Voxel::new(ZERO_VALUE, Vec::new()));
        i += 1;
    }
    assert(link_lists(voxels@) =~= Seq::new(total as nat, |i: int| Seq::<usize>::empty()));
    add_triangles(&mut voxels, &lh_triangles, 0, lh_vertex_count);
    add_triangles(&mut voxels, &rh_triangles, lh_vertex_count, rh_vertex_count);
    proof {
        lemma_mesh_adjacency(
            voxels@,
            lh_vertex_count as int,
            rows_of(lh_triangles@),
            rh_vertex_count as int,
            rows_of(rh_triangles@),
        );
    }
    voxels
}

/// The index of node `n` in time slice `t`.
pub open spec fn slice_node(n_voxels: int, t: int, n: int) -> int {
    t * n_voxels + n
}

/// The links of node `n` in time slice `t`: its links within the slice, then
/// the same node in the next slice and in the slice before, as far as they
/// exist.
pub open spec fn time_links(links: Seq<usize>, n_voxels: int, n_times: int, t: int, n: int) -> Seq<
    usize,
> {
    let within = Seq::new(links.len(), |l: int| (links[l] + t * n_voxels) as usize);
    let onward = if t != n_times - 1 {
        within.push(slice_node(n_voxels, t + 1, n) as usize)
    } else {
        within
    };
    if t != 0 {
        onward.push(slice_node(n_voxels, t - 1, n) as usize)
    } else {
        onward
    }
}

/// Time slices follow one another without gap or overlap.
pub proof fn lemma_slice_order(n_voxels: int, n_times: int, t: int, n: int, u: int, m: int)
    requires
        0 <= n < n_voxels,
        0 <= t < n_times,
        0 <= m < n_voxels,
        0 <= u < n_times,
    ensures
        0 <= slice_node(n_voxels, t, n) < n_voxels * n_times,
        u < t ==> slice_node(n_voxels, u, m) < slice_node(n_voxels, t, n),
        u == t && m < n ==> slice_node(n_voxels, u, m) < slice_node(n_voxels, t, n),
        slice_node(n_voxels, u, m) == slice_node(n_voxels, t, n) ==> u == t && m == n,
{
    assert(0 <= t * n_voxels && t * n_voxels + n_voxels <= n_voxels * n_times) by (nonlinear_arith)
        requires
            0 <= t < n_times,
            0 < n_voxels,
    ;
    assert(u < t ==> u * n_voxels + n_voxels <= t * n_voxels) by (nonlinear_arith)
        requires
            0 <= u,
            0 <= t,
            0 < n_voxels,
    ;
    assert(t < u ==> t * n_voxels + n_voxels <= u * n_voxels) by (nonlinear_arith)
        requires
            0 <= u,
            0 <= t,
            0 < n_voxels,
    ;
}

/// `extended` is the graph `g` repeated over `n_times` time slices, with
/// every node linked to itself in the next slice and in the slice before.
pub open spec fn is_time_extension(extended: Seq<Voxel>, g: Seq<Voxel>, n_times: int) -> bool {
    &&& extended.len() == g.len() * n_times
    &&& forall|t: int, n: int|
        0 <= t < n_times && 0 <= n < g.len() ==> {
            let v = #[trigger] extended[slice_node(g.len() as int, t, n)];
            &&& v.value == g[n].value
            &&& v.voxel_links@ == time_links(g[n].voxel_links@, g.len() as int, n_times, t, n)
        }
}

/// Every index of the extended graph is the index of some node in some
/// time slice.
pub proof fn lemma_slice_of_index(n_voxels: int, n_times: int, i: int)
    requires
        0 < n_voxels,
        0 <= i < n_voxels * n_times,
    ensures
        0 <= i % n_voxels < n_voxels,
        0 <= i / n_voxels < n_times,
        slice_node(n_voxels, i / n_voxels, i % n_voxels) == i,
{
    vstd::arithmetic::div_mod::lemma_fundamental_div_mod(i, n_voxels);
    assert(0 <= i / n_voxels < n_times) by (nonlinear_arith)
        requires
            0 < n_voxels,
            0 <= i < n_voxels * n_times,
            i == n_voxels * (i / n_voxels) + i % n_voxels,
            0 <= i % n_voxels < n_voxels,
    ;
    assert(n_voxels * (i / n_voxels) == (i / n_voxels) * n_voxels) by (nonlinear_arith);
}

/// What the extended graph links: a node to its neighbours in its own time
/// slice, and to itself in the next slice and in the slice before.
pub proof fn lemma_time_linked(
    extended: Seq<Voxel>,
    g: Seq<Voxel>,
    n_times: int,
    t: int,
    n: int,
    j: int,
)
    requires
        is_time_extension(extended, g, n_times),
        links_in_range(g),
        g.len() * n_times <= usize::MAX,
        0 <= t < n_times,
        0 <= n < g.len(),
    ensures
        linked(extended, slice_node(g.len() as int, t, n), j) <==> {
            ||| exists|m: int| #[trigger] linked(g, n, m) && j == slice_node(g.len() as int, t, m)
            ||| t < n_times - 1 && j == slice_node(g.len() as int, t + 1, n)
            ||| t > 0 && j == slice_node(g.len() as int, t - 1, n)
        },
{
    let nv = g.len() as int;
    let links = g[n].voxel_links@;
    let all = extended[slice_node(nv, t, n)].voxel_links@;
    assert(all == time_links(links, nv, n_times, t, n));
    let within = Seq::new(links.len(), |l: int| (links[l] + t * nv) as usize);
    lemma_slice_order(nv, n_times, t, n, t, n);
    if t < n_times - 1 {
        lemma_slice_order(nv, n_times, t + 1, n, t, n);
    }
    if t > 0 {
        lemma_slice_order(nv, n_times, t - 1, n, t, n);
    }
    assert forall|l: int| 0 <= l < links.len() implies #[trigger] within[l] == slice_node(
        nv,
        t,
        links[l] as int,
    ) by {
        assert(g[n].voxel_links@[l] < g.len());
        lemma_slice_order(nv, n_times, t, links[l] as int, t, n);
    }
    if linked(extended, slice_node(nv, t, n), j) {
        let k = choose|k: int| 0 <= k < all.len() && #[trigger] all[k] == j;
        if k < links.len() {
            assert(all[k] == within[k]);
            assert(linked(g, n, links[k] as int));
        }
    }
    if exists|m: int| #[trigger] linked(g, n, m) && j == slice_node(nv, t, m) {
        let m = choose|m: int| #[trigger] linked(g, n, m) && j == slice_node(nv, t, m);
        let l = choose|l: int| 0 <= l < links.len() && #[trigger] links[l] == m;
        assert(all[l] == within[l]);
    }
    if t < n_times - 1 && j == slice_node(nv, t + 1, n) {
        assert(all[links.len() as int] == j);
    }
    if t > 0 && j == slice_node(nv, t - 1, n) {
        assert(all[all.len() - 1] == j);
    }
}

/// Inside a time slice the extended graph has the paths of the graph.
proof fn lemma_slice_reaches(
    extended: Seq<Voxel>,
    g: Seq<Voxel>,
    n_times: int,
    t: int,
    p: Seq<int>,
    k: int,
)
    requires
        is_time_extension(extended, g, n_times),
        links_in_range(g),
        g.len() * n_times <= usize::MAX,
        0 <= t < n_times,
        is_path(g, p),
        0 <= k < p.len(),
        0 <= p[0] < g.len(),
    ensures
        0 <= p[k] < g.len(),
        reachable(
            extended,
            slice_node(g.len() as int, t, p[0]),
            slice_node(g.len() as int, t, p[k]),
        ),
    decreases k,
{
    let nv = g.len() as int;
    if k == 0 {
        lemma_reachable_self(extended, slice_node(nv, t, p[0]));
    } else {
        lemma_slice_reaches(extended, g, n_times, t, p, k - 1);
        let j = k - 1;
        assert(linked(g, p[j], p[j + 1]));
        let at = choose|at: int|
            0 <= at < g[p[j]].voxel_links@.len() && #[trigger] g[p[j]].voxel_links@[at] == p[k];
        assert(g[p[j]].voxel_links@[at] < g.len());
        lemma_time_linked(extended, g, n_times, t, p[j], slice_node(nv, t, p[k]));
        lemma_reachable_link(extended, slice_node(nv, t, p[j]), slice_node(nv, t, p[k]));
        lemma_reachable_joined(
            extended,
            slice_node(nv, t, p[0]),
            slice_node(nv, t, p[j]),
            slice_node(nv, t, p[k]),
        );
    }
}

/// A node of the first time slice reaches itself in every time slice.
proof fn lemma_time_reaches(extended: Seq<Voxel>, g: Seq<Voxel>, n_times: int, t: int, n: int)
    requires
        is_time_extension(extended, g, n_times),
        links_in_range(g),
        g.len() * n_times <= usize::MAX,
        0 <= t < n_times,
        0 <= n < g.len(),
    ensures
        reachable(
            extended,
            slice_node(g.len() as int, 0, n),
            slice_node(g.len() as int, t, n),
        ),
    decreases t,
{
    let nv = g.len() as int;
    if t == 0 {
        lemma_reachable_self(extended, slice_node(nv, 0, n));
    } else {
        lemma_time_reaches(extended, g, n_times, t - 1, n);
        lemma_time_linked(extended, g, n_times, t - 1, n, slice_node(nv, t, n));
        lemma_reachable_link(extended, slice_node(nv, t - 1, n), slice_node(nv, t, n));
        lemma_reachable_joined(
            extended,
            slice_node(nv, 0, n),
            slice_node(nv, t - 1, n),
            slice_node(nv, t, n),
        );
    }
}

/// The extension of a valid graph over at least one time slice is a valid
/// graph, and connected if the graph is.
pub proof fn lemma_time_extension_valid(extended: Seq<Voxel>, g: Seq<Voxel>, n_times: int)
    requires
        is_time_extension(extended, g, n_times),
        valid_graph(g),
        n_times >= 1,
        g.len() * n_times <= usize::MAX,
    ensures
        valid_graph(extended),
        connected(g) ==> connected(extended),
{
    let nv = g.len() as int;
    assert(nv * n_times >= 1) by (nonlinear_arith)
        requires
            nv >= 1,
            n_times >= 1,
    ;
    assert forall|i: int, j: int| #[trigger] linked(extended, i, j) implies linked(extended, j, i)
        && i != j && 0 <= j < extended.len() by {
        lemma_slice_of_index(nv, n_times, i);
        let (t, n) = (i / nv, i % nv);
        lemma_time_linked(extended, g, n_times, t, n, j);
        if exists|m: int| #[trigger] linked(g, n, m) && j == slice_node(nv, t, m) {
            let m = choose|m: int| #[trigger] linked(g, n, m) && j == slice_node(nv, t, m);
            let at = choose|at: int|
                0 <= at < g[n].voxel_links@.len() && #[trigger] g[n].voxel_links@[at] == m;
            assert(g[n].voxel_links@[at] < g.len());
            assert(linked(g, m, n));
            assert(!linked(g, n, n));
            lemma_slice_order(nv, n_times, t, m, t, n);
            lemma_time_linked(extended, g, n_times, t, m, i);
        } else if t < n_times - 1 && j == slice_node(nv, t + 1, n) {
            lemma_slice_order(nv, n_times, t + 1, n, t, n);
            lemma_time_linked(extended, g, n_times, t + 1, n, i);
        } else {
            lemma_slice_order(nv, n_times, t - 1, n, t, n);
            lemma_time_linked(extended, g, n_times, t - 1, n, i);
        }
    }
    assert forall|i: int, k: int|
        0 <= i < extended.len() && 0 <= k < extended[i].voxel_links@.len() implies (
    #[trigger] extended[i].voxel_links@[k]) < extended.len() by {
        assert(linked(extended, i, extended[i].voxel_links@[k] as int));
    }
    if connected(g) {
        assert(slice_node(nv, 0, 0) == 0) by (nonlinear_arith);
        assert forall|i: int| 0 <= i < extended.len() implies #[trigger] reachable(
            extended,
            0,
            i,
        ) by {
            lemma_slice_of_index(nv, n_times, i);
            let (t, n) = (i / nv, i % nv);
            assert(reachable(g, 0, n));
            let p = choose|p: Seq<int>|
                #[trigger] is_path(g, p) && p.len() >= 1 && p[0] == 0 && p[p.len() - 1] == n;
            lemma_slice_reaches(extended, g, n_times, 0, p, p.len() - 1);
            lemma_time_reaches(extended, g, n_times, t, n);
            lemma_reachable_joined(extended, 0, slice_node(nv, 0, n), i);
        }
        lemma_connected_through(extended, 0);
    }
}

/// The links of node `n` in time slice `t`.
fn slice_links(voxels: &Vec<Voxel>, n_times: usize, t: usize, n: usize) -> (links: Vec<usize>)
    requires
        n < voxels.len(),
        t < n_times,
        voxels.len() * n_times <= usize::MAX,
        links_in_range(voxels@),
    ensures
        links@ == time_links(
            voxels@[n as int].voxel_links@,
            voxels.len() as int,
            n_times as int,
            t as int,
            n as int,
        ),
{
    let n_voxels: usize = voxels.len();
    let old_links = &voxels[n].voxel_links;
    proof {
        lemma_slice_order(n_voxels as int, n_times as int, t as int, n as int, t as int, n as int);
    }
    assert(t * n_voxels + n_voxels <= n_voxels * n_times) by (nonlinear_arith)
        requires
            0 <= t < n_times,
            0 < n_voxels,
    ;
    let shift: usize = t * n_voxels;
    let mut links: Vec<usize> = Vec::new();
    let mut l: usize = 0;
    while l < old_links.len()
        invariant
            0 <= l <= old_links.len(),
            n < voxels.len(),
            old_links@ == voxels@[n as int].voxel_links@,
            links_in_range(voxels@),
            shift + voxels.len() <= usize::MAX,
            links@ == Seq::new(l as nat, |k: int| (old_links@[k] + shift) as usize),
        decreases old_links.len() - l,
    {
        assert(voxels@[n as int].voxel_links@[l as int] < voxels.len());
        links.push(old_links[l] + shift);
        assert(links@ =~= Seq::new((l + 1) as nat, |k: int| (old_links@[k] + shift) as usize));
        l += 1;
    }
    assert(links@ =~= Seq::new(
        old_links@.len(),
        |k: int| (old_links@[k] + t as int * n_voxels as int) as usize,
    ));
    if t != n_times - 1 {
        proof {
            lemma_slice_order(
                n_voxels as int,
                n_times as int,
                t + 1,
                n as int,
                t as int,
                n as int,
            );
        }
        links.push((t + 1) * n_voxels + n);
    }
    if t != 0 {
        proof {
            lemma_slice_order(
                n_voxels as int,
                n_times as int,
                t - 1,
                n as int,
                t as int,
                n as int,
            );
        }
        links.push((t - 1) * n_voxels + n);
    }
    links
}

/// `n_times` copies of the graph, one for each time slice, with every node
/// linked to itself in the next slice and in the slice before.
pub fn extend_graph_into_time(voxels: Vec<Voxel>, n_times: usize) -> (new_voxels: Vec<Voxel>)
    requires
        voxels.len() * n_times <= usize::MAX,
        links_in_range(voxels@),
    ensures
        is_time_extension(new_voxels@, voxels@, n_times as int),
        valid_graph(voxels@) && n_times >= 1 ==> valid_graph(new_voxels@),
        valid_graph(voxels@) && n_times >= 1 && connected(voxels@) ==> connected(new_voxels@),
{
    let n_voxels: usize = voxels.len();
    let mut new_voxels: Vec<Voxel> = Vec::new();
    let mut t: usize = 0;
    assert(0 * n_voxels == 0) by (nonlinear_arith);
    while t < n_times
        invariant
            n_voxels == voxels.len(),
            voxels.len() * n_times <= usize::MAX,
            links_in_range(voxels@),
            0 <= t <= n_times,
            new_voxels.len() == t * n_voxels,
            forall|u: int, m: int|
                0 <= u < t && 0 <= m < n_voxels ==> {
                    let v = #[trigger] new_voxels@[slice_node(n_voxels as int, u, m)];
                    &&& v.value == voxels@[m].value
                    &&& v.voxel_links@ == time_links(
                        voxels@[m].voxel_links@,
                        n_voxels as int,
                        n_times as int,
                        u,
                        m,
                    )
                },
        decreases n_times - t,
    {
        let mut n: usize = 0;
        while n < n_voxels
            invariant
                n_voxels == voxels.len(),
                voxels.len() * n_times <= usize::MAX,
                links_in_range(voxels@),
                0 <= t < n_times,
                0 <= n <= n_voxels,
                new_voxels.len() == t * n_voxels + n,
                forall|u: int, m: int|
                    0 <= m < n_voxels && (0 <= u < t || (u == t && m < n)) ==> {
                        let v = #[trigger] new_voxels@[slice_node(n_voxels as int, u, m)];
                        &&& v.value == voxels@[m].value
                        &&& v.voxel_links@ == time_links(
                            voxels@[m].voxel_links@,
                            n_voxels as int,
                            n_times as int,
                            u,
                            m,
                        )
                    },
            decreases n_voxels - n,
        {
            let links = slice_links(&voxels, n_times, t, n);
            let ghost before = new_voxels@;
            new_voxels.push(Voxel::new(voxels[n].value, links));
            proof {
                assert forall|u: int, m: int|
                    0 <= m < n_voxels && (0 <= u < t || (u == t && m < n + 1)) implies {
                    let v = #[trigger] new_voxels@[slice_node(n_voxels as int, u, m)];
                    &&& v.value == voxels@[m].value
                    &&& v.voxel_links@ == time_links(
                        voxels@[m].voxel_links@,
                        n_voxels as int,
                        n_times as int,
                        u,
                        m,
                    )
                } by {
                    lemma_slice_order(n_voxels as int, n_times as int, t as int, n as int, u, m);
                    if !(u == t && m == n) {
                        assert(new_voxels@[slice_node(n_voxels as int, u, m)] == before[slice_node(
                            n_voxels as int,
                            u,
                            m,
                        )]);
                    }
                }
            }
            n += 1;
        }
        assert((t + 1) * n_voxels == t * n_voxels + n_voxels) by (nonlinear_arith);
        t += 1;
    }
    assert(n_times * n_voxels == n_voxels * n_times) by (nonlinear_arith);
    proof {
        if valid_graph(voxels@) && n_times >= 1 {
            lemma_time_extension_valid(new_voxels@, voxels@, n_times as int);
        }
    }
    new_voxels
}

/// The number of nodes of a source space: one more than the number that
/// its vertex-count tag holds.
pub open spec fn vertex_count(file: Seq<u8>, source_space: Block) -> Result<int, FiffError> {
    match tag_of_kind(source_space, KIND_MNE_SOURCE_SPACE_USED_VERTEX_COUNT) {
        Some(tag) => match tag_data(file, tag) {
            Ok(TagContent::Int(count)) => if -1 <= count < i32::MAX {
                Ok(count + 1)
            } else {
                Err(FiffError::Layout)
            },
            Ok(_) => Err(FiffError::Layout),
            Err(e) => Err(e),
        },
        None => Err(FiffError::Layout),
    }
}

/// The triangles of a source space: the rows of the integer matrix that
/// its triangles tag holds.
pub open spec fn triangles_of(file: Seq<u8>, source_space: Block) -> Result<
    Seq<Seq<i32>>,
    FiffError,
> {
    match tag_of_kind(source_space, KIND_MNE_SOURCE_SPACE_USED_TRIANGLES) {
        Some(tag) => match tag_data(file, tag) {
            Ok(TagContent::ArrayInt(triangles)) => Ok(triangles),
            Ok(_) => Err(FiffError::Layout),
            Err(e) => Err(e),
        },
        None => Err(FiffError::Layout),
    }
}

/// Reads the number of nodes of a source space.
fn read_vertex_count(file: &[u8], source_space: &Tree) -> (r: Result<usize, FiffError>)
    ensures
        match r {
            Ok(count) => vertex_count(file@, source_space@) == Ok::<int, FiffError>(count as int),
            Err(e) => vertex_count(file@, source_space@) == Err::<int, FiffError>(e),
        },
{
    match find_and_read_tag(file, source_space, KIND_MNE_SOURCE_SPACE_USED_VERTEX_COUNT) {
        Ok(Some(TagData::Int(count))) => {
            if count < -1 || count == i32::MAX {
                Err(FiffError::Layout)
            } else {
                Ok((count + 1) as usize)
            }
        },
        Ok(_) => Err(FiffError::Layout),
        Err(e) => Err(e),
    }
}

/// Reads the triangles of a source space.
fn read_triangles(file: &[u8], source_space: &Tree) -> (r: Result<Vec<Vec<i32>>, FiffError>)
    ensures
        match r {
            Ok(triangles) => triangles_of(file@, source_space@) == Ok::<Seq<Seq<i32>>, FiffError>(
                rows_of(triangles@),
            ),
            Err(e) => triangles_of(file@, source_space@) == Err::<Seq<Seq<i32>>, FiffError>(e),
        },
{
    match find_and_read_tag(file, source_space, KIND_MNE_SOURCE_SPACE_USED_TRIANGLES) {
        Ok(Some(TagData::ArrayInt(triangles))) => Ok(triangles),
        Ok(_) => Err(FiffError::Layout),
        Err(e) => Err(e),
    }
}

/// The adjacency lists of the surface mesh that the two source spaces
/// `left` and `right` of the file describe.
pub open spec fn source_space_mesh(file: Seq<u8>, left: Block, right: Block) -> Result<
    Seq<Seq<usize>>,
    FiffError,
> {
    match vertex_count(file, left) {
        Err(e) => Err(e),
        Ok(lh_count) => match vertex_count(file, right) {
            Err(e) => Err(e),
            Ok(rh_count) => match triangles_of(file, left) {
                Err(e) => Err(e),
                Ok(lh_triangles) => match triangles_of(file, right) {
                    Err(e) => Err(e),
                    Ok(rh_triangles) => if lh_count + rh_count > usize::MAX || !corners_in_range(
                        lh_triangles,
                        lh_count,
                    ) || !corners_in_range(rh_triangles, rh_count) {
                        Err(FiffError::SizeMismatch)
                    } else {
                        Ok(mesh_lists(lh_count, lh_triangles, rh_count, rh_triangles))
                    },
                },
            },
        },
    }
}

/// The adjacency lists of the surface mesh of a source-space file: the
/// mesh of the first two source-space blocks of its directory, the first
/// one as the left hemisphere.
pub open spec fn source_space_lists(file: Seq<u8>) -> Result<Seq<Seq<usize>>, FiffError> {
    match directory(file) {
        Err(e) => Err(e),
        Ok(tree) => {
            let source_spaces = blocks_of(tree, BLOCK_MNE_SOURCE_SPACE);
            if source_spaces.len() < 2 {
                Err(FiffError::Layout)
            } else {
                source_space_mesh(file, source_spaces[0], source_spaces[1])
            }
        },
    }
}

/// Reads the graph of the surface mesh from the bytes of a source-space
/// file. Every value is zero.
pub fn read_source_space_to_graph(file: &[u8]) -> (r: Result<Vec<Voxel>, FiffError>)
    ensures
        match r {
            Ok(voxels) => {
                &&& source_space_lists(file@) == Ok::<Seq<Seq<usize>>, FiffError>(
                    link_lists(voxels@),
                )
                &&& forall|i: int|
                    0 <= i < voxels.len() ==> (#[trigger] voxels@[i]).value == ZERO_VALUE
                &&& links_in_range(voxels@)
                &&& symmetric(voxels@)
                &&& no_self_loops(voxels@)
            },
            Err(e) => source_space_lists(file@) == Err::<Seq<Seq<usize>>, FiffError>(e),
        },
{
    let tree = match open(file) {
        Ok(tree) => tree,
        Err(e) => {
            return Err(e);
        },
    };
    let source_spaces = find_blocks(&tree, BLOCK_MNE_SOURCE_SPACE);
    if source_spaces.len() < 2 {
        return Err(FiffError::Layout);
    }
    assert(contents(source_spaces@)[0] == source_spaces@[0]@);
    assert(contents(source_spaces@)[1] == source_spaces@[1]@);

    let lh_vertex_count = match read_vertex_count(file, source_spaces[0]) {
        Ok(count) => count,
        Err(e) => {
            return Err(e);
        },
    };
    let rh_vertex_count = match read_vertex_count(file, source_spaces[1]) {
        Ok(count) => count,
        Err(e) => {
            return Err(e);
        },
    };
    let lh_triangles = match read_triangles(file, source_spaces[0]) {
        Ok(triangles) => triangles,
        Err(e) => {
            return Err(e);
        },
    };
    let rh_triangles = match read_triangles(file, source_spaces[1]) {
        Ok(triangles) => triangles,
        Err(e) => {
            return Err(e);
        },
    };
    if lh_vertex_count > usize::MAX - rh_vertex_count || !check_corners(
        &lh_triangles,
        lh_vertex_count,
    ) || !check_corners(&rh_triangles, rh_vertex_count) {
        return Err(FiffError::SizeMismatch);
    }
    Ok(triangles_to_graph(lh_vertex_count, lh_triangles, rh_vertex_count, rh_triangles))
}

} // verus!
