//! Graphs of regular shape: the chain and the square grids.

use vstd::prelude::*;

use crate::voxel::{
    connected, is_path, lemma_connected_through, lemma_reachable_joined, lemma_reachable_link,
    lemma_reachable_self, linked, reachable, valid_graph, Voxel, ZERO_VALUE,
};

verus! {

/// The neighbours of node `i` in a chain of `size` nodes: the node before
/// it, then the node after it, as far as they exist.
pub open spec fn chain_links(size: int, i: int) -> Seq<usize> {
    if i == 0 {
        seq![1usize]
    } else if i == size - 1 {
        seq![(i - 1) as usize]
    } else {
        seq![(i - 1) as usize, (i + 1) as usize]
    }
}

/// `g` is the chain of `size` nodes.
pub open spec fn is_chain(g: Seq<Voxel>, size: int) -> bool {
    &&& g.len() == size
    &&& forall|i: int| 0 <= i < size ==> (#[trigger] g[i]).voxel_links@ == chain_links(size, i)
}

/// A chain of `size` nodes, each linked to the node before and the node
/// after it. Every value is zero.
pub fn generate_1d_field(size: usize) -> (voxels: Vec<Voxel>)
    requires
        size >= 2,
    ensures
        is_chain(voxels@, size as int),
        forall|i: int| 0 <= i < size ==> (#[trigger] voxels@[i]).value == ZERO_VALUE,
        valid_graph(voxels@),
        connected(voxels@),
{
    let mut voxels: Vec<Voxel> = Vec::new();
    let mut i: usize = 0;
    while i < size
        invariant
            size >= 2,
            0 <= i <= size,
            voxels.len() == i,
            forall|j: int| 0 <= j < i ==> (#[trigger] voxels@[j]).voxel_links@ == chain_links(size as int, j),
            forall|j: int| 0 <= j < i ==> (#[trigger] voxels@[j]).value == ZERO_VALUE,
        decreases size - i,
    {
        let mut links: Vec<usize> = Vec::new();
        if i == 0 {
            links.push(1);
        } else if i == size - 1 {
            links.push(i - 1);
        } else {
            links.push(i - 1);
            links.push(i + 1);
        }
        assert(links@ =~= chain_links(size as int, i as int));
        voxels.push(Voxel::new(ZERO_VALUE, links));
        i += 1;
    }
    proof {
        lemma_chain_valid_connected(voxels@, size as int);
    }
    voxels
}

/// In a chain the links are exactly those between nodes next to each other.
pub proof fn lemma_chain_linked(g: Seq<Voxel>, size: int, i: int, j: int)
    requires
        2 <= size <= usize::MAX,
        is_chain(g, size),
    ensures
        linked(g, i, j) <==> 0 <= i < size && 0 <= j < size && (j == i + 1 || j == i - 1),
{
    if 0 <= i < size {
        let links = g[i].voxel_links@;
        assert(links == chain_links(size, i));
        if 0 <= j < size && (j == i + 1 || j == i - 1) {
            if j == i - 1 {
                assert(links[0] == j);
            } else if i == 0 {
                assert(links[0] == j);
            } else {
                assert(links[1] == j);
            }
        }
    }
}

/// From `a` the chain leads on to any node `b` after it.
proof fn lemma_chain_reaches(g: Seq<Voxel>, size: int, a: int, b: int)
    requires
        2 <= size <= usize::MAX,
        is_chain(g, size),
        0 <= a <= b < size,
    ensures
        reachable(g, a, b),
        reachable(g, b, a),
    decreases b - a,
{
    if a == b {
        let p = seq![a];
        assert(is_path(g, p));
        assert(p[0] == a);
    } else {
        lemma_chain_reaches(g, size, a, b - 1);
        let up = choose|p: Seq<int>|
            #[trigger] is_path(g, p) && p.len() >= 1 && p[0] == a && p[p.len() - 1] == b - 1;
        let down = choose|p: Seq<int>|
            #[trigger] is_path(g, p) && p.len() >= 1 && p[0] == b - 1 && p[p.len() - 1] == a;
        lemma_chain_linked(g, size, b - 1, b);
        lemma_chain_linked(g, size, b, b - 1);
        let up2 = up.push(b);
        assert(is_path(g, up2)) by {
            assert forall|k: int| 0 <= k < up2.len() - 1 implies #[trigger] linked(
                g,
                up2[k],
                up2[k + 1],
            ) by {
                if k < up.len() - 1 {
                    assert(linked(g, up[k], up[k + 1]));
                }
            }
        }
        assert(up2[0] == a && up2[up2.len() - 1] == b);
        let down2 = seq![b] + down;
        assert(is_path(g, down2)) by {
            assert forall|k: int| 0 <= k < down2.len() - 1 implies #[trigger] linked(
                g,
                down2[k],
                down2[k + 1],
            ) by {
                if k >= 1 {
                    assert(linked(g, down[k - 1], down[k - 1 + 1]));
                }
            }
        }
        assert(down2[0] == b && down2[down2.len() - 1] == a);
    }
}

/// A chain is a valid graph, and connected.
pub proof fn lemma_chain_valid_connected(g: Seq<Voxel>, size: int)
    requires
        2 <= size <= usize::MAX,
        is_chain(g, size),
    ensures
        valid_graph(g),
        connected(g),
{
    assert forall|i: int, k: int|
        0 <= i < g.len() && 0 <= k < g[i].voxel_links@.len() implies (
    #[trigger] g[i].voxel_links@[k]) < g.len() by {
        assert(g[i].voxel_links@ == chain_links(size, i));
    }
    assert forall|i: int, j: int| #[trigger] linked(g, i, j) implies linked(g, j, i) by {
        lemma_chain_linked(g, size, i, j);
        lemma_chain_linked(g, size, j, i);
    }
    assert forall|i: int| !#[trigger] linked(g, i, i) by {
        lemma_chain_linked(g, size, i, i);
    }
    assert forall|a: int, b: int|
        0 <= a < g.len() && 0 <= b < g.len() implies #[trigger] reachable(g, a, b) by {
        if a <= b {
            lemma_chain_reaches(g, size, a, b);
        } else {
            lemma_chain_reaches(g, size, b, a);
        }
    }
}

/// The index of the grid node in column `x` of row `y`.
pub open spec fn cell(width: int, x: int, y: int) -> int {
    y * width + x
}

/// `links` with the node in column `x` of row `y` added if `present`.
pub open spec fn with_cell(links: Seq<usize>, present: bool, width: int, x: int, y: int) -> Seq<
    usize,
> {
    if present {
        links.push(cell(width, x, y) as usize)
    } else {
        links
    }
}

/// The neighbours of a grid node along the rows and columns: right, left,
/// below, above, as far as they exist.
pub open spec fn grid4_links(width: int, x: int, y: int) -> Seq<usize> {
    let links = with_cell(Seq::empty(), x < width - 1, width, x + 1, y);
    let links = with_cell(links, x > 0, width, x - 1, y);
    let links = with_cell(links, y < width - 1, width, x, y + 1);
    with_cell(links, y > 0, width, x, y - 1)
}

/// The neighbours of a grid node along rows, columns and diagonals: the
/// four of `grid4_links`, then below right, above right, below left, above
/// left, as far as they exist.
pub open spec fn grid8_links(width: int, x: int, y: int) -> Seq<usize> {
    let links = grid4_links(width, x, y);
    let links = with_cell(links, x < width - 1 && y < width - 1, width, x + 1, y + 1);
    let links = with_cell(links, x < width - 1 && y > 0, width, x + 1, y - 1);
    let links = with_cell(links, x > 0 && y < width - 1, width, x - 1, y + 1);
    with_cell(links, x > 0 && y > 0, width, x - 1, y - 1)
}

/// `g` is the square grid of side `width` in which each node is linked to
/// its neighbours along rows and columns.
pub open spec fn is_grid4(g: Seq<Voxel>, width: int) -> bool {
    &&& g.len() == width * width
    &&& forall|x: int, y: int|
        0 <= x < width && 0 <= y < width ==> (#[trigger] g[cell(width, x, y)]).voxel_links@
            == grid4_links(width, x, y)
}

/// `g` is the square grid of side `width` in which each node is linked to
/// its neighbours along rows, columns and diagonals.
pub open spec fn is_grid8(g: Seq<Voxel>, width: int) -> bool {
    &&& g.len() == width * width
    &&& forall|x: int, y: int|
        0 <= x < width && 0 <= y < width ==> (#[trigger] g[cell(width, x, y)]).voxel_links@
            == grid8_links(width, x, y)
}

/// Rows follow one another without gap or overlap.
pub proof fn lemma_cell_order(width: int, x: int, y: int, u: int, v: int)
    requires
        0 <= x < width,
        0 <= y < width,
        0 <= u < width,
        0 <= v < width,
    ensures
        0 <= cell(width, x, y) < width * width,
        v < y ==> cell(width, u, v) < cell(width, x, y),
        v == y && u < x ==> cell(width, u, v) < cell(width, x, y),
        cell(width, u, v) == cell(width, x, y) ==> u == x && v == y,
{
    assert(0 <= y * width && y * width + width <= width * width) by (nonlinear_arith)
        requires
            0 <= y < width,
    ;
    assert(v < y ==> v * width + width <= y * width) by (nonlinear_arith)
        requires
            0 <= v,
            0 <= y,
            0 < width,
    ;
    assert(y < v ==> y * width + width <= v * width) by (nonlinear_arith)
        requires
            0 <= v,
            0 <= y,
            0 < width,
    ;
}

/// Adds the node in column `x` of row `y` to `links`.
fn push_cell(links: &mut Vec<usize>, width: usize, x: usize, y: usize)
    requires
        x < width,
        y < width,
        width * width <= usize::MAX,
    ensures
        final(links)@ == old(links)@.push(cell(width as int, x as int, y as int) as usize),
{
    proof {
        lemma_cell_order(width as int, x as int, y as int, x as int, y as int);
        assert(0 <= y * width <= width * width) by (nonlinear_arith)
            requires
                0 <= y < width,
        ;
    }
    links.push(y * width + x);
}

/// The four neighbours along rows and columns of the node in column `x` of
/// row `y`, as far as they exist.
fn grid4_neighbors(width: usize, x: usize, y: usize) -> (links: Vec<usize>)
    requires
        x < width,
        y < width,
        width * width <= usize::MAX,
    ensures
        links@ == grid4_links(width as int, x as int, y as int),
{
    let mut links: Vec<usize> = Vec::new();
    if x < width - 1 {
        push_cell(&mut links, width, x + 1, y);
    }
    if x > 0 {
        push_cell(&mut links, width, x - 1, y);
    }
    if y < width - 1 {
        push_cell(&mut links, width, x, y + 1);
    }
    if y > 0 {
        push_cell(&mut links, width, x, y - 1);
    }
    links
}

/// A square grid of side `width` in which each node is linked to its
/// neighbours along rows and columns. Every value is zero.
pub fn generate_2d4c_field(width: usize) -> (voxels: Vec<Voxel>)
    requires
        width >= 2,
        width * width <= usize::MAX,
    ensures
        is_grid4(voxels@, width as int),
        forall|i: int| 0 <= i < voxels.len() ==> (#[trigger] voxels@[i]).value == ZERO_VALUE,
        valid_graph(voxels@),
        connected(voxels@),
{
    let mut voxels: Vec<Voxel> = Vec::new();
    let mut y: usize = 0;
    while y < width
        invariant
            width >= 2,
            width * width <= usize::MAX,
            0 <= y <= width,
            voxels.len() == y * width,
            forall|u: int, v: int|
                0 <= u < width && 0 <= v < y ==> (#[trigger] voxels@[cell(
                    width as int,
                    u,
                    v,
                )]).voxel_links@ == grid4_links(width as int, u, v),
            forall|i: int| 0 <= i < voxels.len() ==> (#[trigger] voxels@[i]).value == ZERO_VALUE,
        decreases width - y,
    {
        let mut x: usize = 0;
        while x < width
            invariant
                width >= 2,
                width * width <= usize::MAX,
                0 <= y < width,
                0 <= x <= width,
                voxels.len() == y * width + x,
                forall|u: int, v: int|
                    0 <= u < width && (0 <= v < y || (v == y && u < x)) ==> (#[trigger] voxels@[cell(
                        width as int,
                        u,
                        v,
                    )]).voxel_links@ == grid4_links(width as int, u, v),
                forall|i: int|
                    0 <= i < voxels.len() ==> (#[trigger] voxels@[i]).value == ZERO_VALUE,
            decreases width - x,
        {
            let links = grid4_neighbors(width, x, y);
            let ghost before = voxels@;
            voxels.push(Voxel::new(ZERO_VALUE, links));
            proof {
                assert forall|u: int, v: int|
                    0 <= u < width && (0 <= v < y || (v == y && u < x + 1)) implies (
                #[trigger] voxels@[cell(width as int, u, v)]).voxel_links@ == grid4_links(
                    width as int,
                    u,
                    v,
                ) by {
                    lemma_cell_order(width as int, x as int, y as int, u, v);
                    if !(v == y && u == x) {
                        assert(voxels@[cell(width as int, u, v)] == before[cell(
                            width as int,
                            u,
                            v,
                        )]);
                    }
                }
            }
            x += 1;
        }
        assert((y + 1) * width == y * width + width) by (nonlinear_arith);
        y += 1;
    }
    proof {
        lemma_grid4_valid_connected(voxels@, width as int);
    }
    voxels
}

/// The eight neighbours along rows, columns and diagonals of the node in
/// column `x` of row `y`, as far as they exist.
fn grid8_neighbors(width: usize, x: usize, y: usize) -> (links: Vec<usize>)
    requires
        x < width,
        y < width,
        width * width <= usize::MAX,
    ensures
        links@ == grid8_links(width as int, x as int, y as int),
{
    let mut links = grid4_neighbors(width, x, y);
    if x < width - 1 && y < width - 1 {
        push_cell(&mut links, width, x + 1, y + 1);
    }
    if x < width - 1 && y > 0 {
        push_cell(&mut links, width, x + 1, y - 1);
    }
    if x > 0 && y < width - 1 {
        push_cell(&mut links, width, x - 1, y + 1);
    }
    if x > 0 && y > 0 {
        push_cell(&mut links, width, x - 1, y - 1);
    }
    links
}

/// A square grid of side `width` in which each node is linked to its
/// neighbours along rows, columns and diagonals. Every value is zero.
pub fn generate_2d8c_field(width: usize) -> (voxels: Vec<Voxel>)
    requires
        width >= 2,
        width * width <= usize::MAX,
    ensures
        is_grid8(voxels@, width as int),
        forall|i: int| 0 <= i < voxels.len() ==> (#[trigger] voxels@[i]).value == ZERO_VALUE,
        valid_graph(voxels@),
        connected(voxels@),
{
    let mut voxels: Vec<Voxel> = Vec::new();
    let mut y: usize = 0;
    while y < width
        invariant
            width >= 2,
            width * width <= usize::MAX,
            0 <= y <= width,
            voxels.len() == y * width,
            forall|u: int, v: int|
                0 <= u < width && 0 <= v < y ==> (#[trigger] voxels@[cell(
                    width as int,
                    u,
                    v,
                )]).voxel_links@ == grid8_links(width as int, u, v),
            forall|i: int| 0 <= i < voxels.len() ==> (#[trigger] voxels@[i]).value == ZERO_VALUE,
        decreases width - y,
    {
        let mut x: usize = 0;
        while x < width
            invariant
                width >= 2,
                width * width <= usize::MAX,
                0 <= y < width,
                0 <= x <= width,
                voxels.len() == y * width + x,
                forall|u: int, v: int|
                    0 <= u < width && (0 <= v < y || (v == y && u < x)) ==> (#[trigger] voxels@[cell(
                        width as int,
                        u,
                        v,
                    )]).voxel_links@ == grid8_links(width as int, u, v),
                forall|i: int|
                    0 <= i < voxels.len() ==> (#[trigger] voxels@[i]).value == ZERO_VALUE,
            decreases width - x,
        {
            let links = grid8_neighbors(width, x, y);
            let ghost before = voxels@;
            voxels.push(Voxel::new(ZERO_VALUE, links));
            proof {
                assert forall|u: int, v: int|
                    0 <= u < width && (0 <= v < y || (v == y && u < x + 1)) implies (
                #[trigger] voxels@[cell(width as int, u, v)]).voxel_links@ == grid8_links(
                    width as int,
                    u,
                    v,
                ) by {
                    lemma_cell_order(width as int, x as int, y as int, u, v);
                    if !(v == y && u == x) {
                        assert(voxels@[cell(width as int, u, v)] == before[cell(
                            width as int,
                            u,
                            v,
                        )]);
                    }
                }
            }
            x += 1;
        }
        assert((y + 1) * width == y * width + width) by (nonlinear_arith);
        y += 1;
    }
    proof {
        lemma_grid8_valid_connected(voxels@, width as int);
    }
    voxels
}

/// The node in column `u` of row `v` is next to the node in column `x` of
/// row `y` along a row or a column.
pub open spec fn beside(width: int, x: int, y: int, u: int, v: int) -> bool {
    &&& 0 <= u < width
    &&& 0 <= v < width
    &&& (v == y && (u == x + 1 || u == x - 1)) || (u == x && (v == y + 1 || v == y - 1))
}

/// The node in column `u` of row `v` is next to the node in column `x` of
/// row `y` along a row, a column or a diagonal.
pub open spec fn around(width: int, x: int, y: int, u: int, v: int) -> bool {
    &&& 0 <= u < width
    &&& 0 <= v < width
    &&& x - 1 <= u <= x + 1
    &&& y - 1 <= v <= y + 1
    &&& !(u == x && v == y)
}

/// Every index of the grid is the index of the node in some column of some
/// row.
pub proof fn lemma_cell_of_index(width: int, i: int)
    requires
        0 < width,
        0 <= i < width * width,
    ensures
        0 <= i % width < width,
        0 <= i / width < width,
        cell(width, i % width, i / width) == i,
{
    vstd::arithmetic::div_mod::lemma_fundamental_div_mod(i, width);
    assert(0 <= i / width < width) by (nonlinear_arith)
        requires
            0 < width,
            0 <= i < width * width,
            i == width * (i / width) + i % width,
            0 <= i % width < width,
    ;
    assert(width * (i / width) == (i / width) * width) by (nonlinear_arith);
}

/// What the grid of four neighbours links: a node to the nodes beside it.
pub proof fn lemma_grid4_linked(g: Seq<Voxel>, width: int, x: int, y: int, j: int)
    requires
        2 <= width,
        width * width <= usize::MAX,
        is_grid4(g, width),
        0 <= x < width,
        0 <= y < width,
    ensures
        linked(g, cell(width, x, y), j) <==> exists|u: int, v: int|
            beside(width, x, y, u, v) && j == #[trigger] cell(width, u, v),
{
    let links = g[cell(width, x, y)].voxel_links@;
    assert(links == grid4_links(width, x, y));
    lemma_cell_order(width, x, y, x, y);
    if x < width - 1 {
        lemma_cell_order(width, x + 1, y, x, y);
    }
    if x > 0 {
        lemma_cell_order(width, x - 1, y, x, y);
    }
    if y < width - 1 {
        lemma_cell_order(width, x, y + 1, x, y);
    }
    if y > 0 {
        lemma_cell_order(width, x, y - 1, x, y);
    }
    let l0 = with_cell(Seq::empty(), x < width - 1, width, x + 1, y);
    let l1 = with_cell(l0, x > 0, width, x - 1, y);
    let l2 = with_cell(l1, y < width - 1, width, x, y + 1);
    let l3 = with_cell(l2, y > 0, width, x, y - 1);
    assert(links == l3);
    if linked(g, cell(width, x, y), j) {
        let k = choose|k: int| 0 <= k < links.len() && #[trigger] links[k] == j;
        if y > 0 && k == l2.len() {
            assert(beside(width, x, y, x, y - 1) && j == cell(width, x, y - 1));
        } else if y < width - 1 && k == l1.len() {
            assert(beside(width, x, y, x, y + 1) && j == cell(width, x, y + 1));
        } else if x > 0 && k == l0.len() {
            assert(beside(width, x, y, x - 1, y) && j == cell(width, x - 1, y));
        } else {
            assert(beside(width, x, y, x + 1, y) && j == cell(width, x + 1, y));
        }
    }
    if exists|u: int, v: int| beside(width, x, y, u, v) && j == #[trigger] cell(width, u, v) {
        let (u, v) = choose|u: int, v: int|
            beside(width, x, y, u, v) && j == #[trigger] cell(width, u, v);
        if v == y && u == x + 1 {
            assert(links[0] == j);
        } else if v == y && u == x - 1 {
            assert(links[l0.len() as int] == j);
        } else if v == y + 1 {
            assert(links[l1.len() as int] == j);
        } else {
            assert(links[l2.len() as int] == j);
        }
    }
}

/// What the grid of eight neighbours links: a node to the nodes around it.
pub proof fn lemma_grid8_linked(g: Seq<Voxel>, width: int, x: int, y: int, j: int)
    requires
        2 <= width,
        width * width <= usize::MAX,
        is_grid8(g, width),
        0 <= x < width,
        0 <= y < width,
    ensures
        linked(g, cell(width, x, y), j) <==> exists|u: int, v: int|
            around(width, x, y, u, v) && j == #[trigger] cell(width, u, v),
{
    let links = g[cell(width, x, y)].voxel_links@;
    assert(links == grid8_links(width, x, y));
    lemma_cell_order(width, x, y, x, y);
    assert forall|u: int, v: int| around(width, x, y, u, v) implies 0 <= #[trigger] cell(
        width,
        u,
        v,
    ) < width * width by {
        lemma_cell_order(width, u, v, x, y);
    }
    let l0 = with_cell(Seq::empty(), x < width - 1, width, x + 1, y);
    let l1 = with_cell(l0, x > 0, width, x - 1, y);
    let l2 = with_cell(l1, y < width - 1, width, x, y + 1);
    let l3 = with_cell(l2, y > 0, width, x, y - 1);
    let l4 = with_cell(l3, x < width - 1 && y < width - 1, width, x + 1, y + 1);
    let l5 = with_cell(l4, x < width - 1 && y > 0, width, x + 1, y - 1);
    let l6 = with_cell(l5, x > 0 && y < width - 1, width, x - 1, y + 1);
    let l7 = with_cell(l6, x > 0 && y > 0, width, x - 1, y - 1);
    assert(links == l7);
    if linked(g, cell(width, x, y), j) {
        let k = choose|k: int| 0 <= k < links.len() && #[trigger] links[k] == j;
        if x > 0 && y > 0 && k == l6.len() {
            assert(around(width, x, y, x - 1, y - 1) && j == cell(width, x - 1, y - 1));
        } else if x > 0 && y < width - 1 && k == l5.len() {
            assert(around(width, x, y, x - 1, y + 1) && j == cell(width, x - 1, y + 1));
        } else if x < width - 1 && y > 0 && k == l4.len() {
            assert(around(width, x, y, x + 1, y - 1) && j == cell(width, x + 1, y - 1));
        } else if x < width - 1 && y < width - 1 && k == l3.len() {
            assert(around(width, x, y, x + 1, y + 1) && j == cell(width, x + 1, y + 1));
        } else if y > 0 && k == l2.len() {
            assert(around(width, x, y, x, y - 1) && j == cell(width, x, y - 1));
        } else if y < width - 1 && k == l1.len() {
            assert(around(width, x, y, x, y + 1) && j == cell(width, x, y + 1));
        } else if x > 0 && k == l0.len() {
            assert(around(width, x, y, x - 1, y) && j == cell(width, x - 1, y));
        } else {
            assert(around(width, x, y, x + 1, y) && j == cell(width, x + 1, y));
        }
    }
    if exists|u: int, v: int| around(width, x, y, u, v) && j == #[trigger] cell(width, u, v) {
        let (u, v) = choose|u: int, v: int|
            around(width, x, y, u, v) && j == #[trigger] cell(width, u, v);
        if v == y && u == x + 1 {
            assert(links[0] == j);
        } else if v == y && u == x - 1 {
            assert(links[l0.len() as int] == j);
        } else if u == x && v == y + 1 {
            assert(links[l1.len() as int] == j);
        } else if u == x && v == y - 1 {
            assert(links[l2.len() as int] == j);
        } else if u == x + 1 && v == y + 1 {
            assert(links[l3.len() as int] == j);
        } else if u == x + 1 && v == y - 1 {
            assert(links[l4.len() as int] == j);
        } else if u == x - 1 && v == y + 1 {
            assert(links[l5.len() as int] == j);
        } else {
            assert(links[l6.len() as int] == j);
        }
    }
}

/// In a square grid whose nodes are linked at least along rows and columns,
/// the first node reaches the node in column `x` of row `y`.
proof fn lemma_grid_reaches(g: Seq<Voxel>, width: int, x: int, y: int)
    requires
        2 <= width,
        0 <= x < width,
        0 <= y < width,
        forall|a: int, b: int, u: int, v: int|
            0 <= a < width && 0 <= b < width && beside(width, a, b, u, v) ==> linked(
                g,
                #[trigger] cell(width, a, b),
                #[trigger] cell(width, u, v),
            ),
    ensures
        reachable(g, 0, cell(width, x, y)),
    decreases x + y,
{
    if x > 0 {
        lemma_grid_reaches(g, width, x - 1, y);
        assert(beside(width, x - 1, y, x, y));
        lemma_reachable_link(g, cell(width, x - 1, y), cell(width, x, y));
        lemma_reachable_joined(g, 0, cell(width, x - 1, y), cell(width, x, y));
    } else if y > 0 {
        lemma_grid_reaches(g, width, x, y - 1);
        assert(beside(width, x, y - 1, x, y));
        lemma_reachable_link(g, cell(width, x, y - 1), cell(width, x, y));
        lemma_reachable_joined(g, 0, cell(width, x, y - 1), cell(width, x, y));
    } else {
        assert(cell(width, 0, 0) == 0) by (nonlinear_arith);
        lemma_reachable_self(g, 0);
    }
}

/// The grid of four neighbours is a valid graph, and connected.
pub proof fn lemma_grid4_valid_connected(g: Seq<Voxel>, width: int)
    requires
        2 <= width,
        width * width <= usize::MAX,
        is_grid4(g, width),
    ensures
        valid_graph(g),
        connected(g),
{
    assert(width * width >= 1) by (nonlinear_arith)
        requires
            2 <= width,
    ;
    assert forall|i: int, j: int| #[trigger] linked(g, i, j) implies linked(g, j, i) && i != j
        && 0 <= j < g.len() by {
        lemma_cell_of_index(width, i);
        let (x, y) = (i % width, i / width);
        lemma_grid4_linked(g, width, x, y, j);
        let (u, v) = choose|u: int, v: int|
            beside(width, x, y, u, v) && j == #[trigger] cell(width, u, v);
        lemma_cell_order(width, u, v, x, y);
        assert(beside(width, u, v, x, y));
        lemma_grid4_linked(g, width, u, v, i);
    }
    assert forall|i: int, k: int|
        0 <= i < g.len() && 0 <= k < g[i].voxel_links@.len() implies (
    #[trigger] g[i].voxel_links@[k]) < g.len() by {
        assert(linked(g, i, g[i].voxel_links@[k] as int));
    }
    assert forall|a: int, b: int, u: int, v: int|
        0 <= a < width && 0 <= b < width && beside(width, a, b, u, v) implies linked(
        g,
        #[trigger] cell(width, a, b),
        #[trigger] cell(width, u, v),
    ) by {
        lemma_grid4_linked(g, width, a, b, cell(width, u, v));
    }
    assert forall|i: int| 0 <= i < g.len() implies #[trigger] reachable(g, 0, i) by {
        lemma_cell_of_index(width, i);
        lemma_grid_reaches(g, width, i % width, i / width);
    }
    lemma_connected_through(g, 0);
}

/// The grid of eight neighbours is a valid graph, and connected.
pub proof fn lemma_grid8_valid_connected(g: Seq<Voxel>, width: int)
    requires
        2 <= width,
        width * width <= usize::MAX,
        is_grid8(g, width),
    ensures
        valid_graph(g),
        connected(g),
{
    assert(width * width >= 1) by (nonlinear_arith)
        requires
            2 <= width,
    ;
    assert forall|i: int, j: int| #[trigger] linked(g, i, j) implies linked(g, j, i) && i != j
        && 0 <= j < g.len() by {
        lemma_cell_of_index(width, i);
        let (x, y) = (i % width, i / width);
        lemma_grid8_linked(g, width, x, y, j);
        let (u, v) = choose|u: int, v: int|
            around(width, x, y, u, v) && j == #[trigger] cell(width, u, v);
        lemma_cell_order(width, u, v, x, y);
        assert(around(width, u, v, x, y));
        lemma_grid8_linked(g, width, u, v, i);
    }
    assert forall|i: int, k: int|
        0 <= i < g.len() && 0 <= k < g[i].voxel_links@.len() implies (
    #[trigger] g[i].voxel_links@[k]) < g.len() by {
        assert(linked(g, i, g[i].voxel_links@[k] as int));
    }
    assert forall|a: int, b: int, u: int, v: int|
        0 <= a < width && 0 <= b < width && beside(width, a, b, u, v) implies linked(
        g,
        #[trigger] cell(width, a, b),
        #[trigger] cell(width, u, v),
    ) by {
        assert(around(width, a, b, u, v));
        lemma_grid8_linked(g, width, a, b, cell(width, u, v));
    }
    assert forall|i: int| 0 <= i < g.len() implies #[trigger] reachable(g, 0, i) by {
        lemma_cell_of_index(width, i);
        lemma_grid_reaches(g, width, i % width, i / width);
    }
    lemma_connected_through(g, 0);
}

} // verus!
