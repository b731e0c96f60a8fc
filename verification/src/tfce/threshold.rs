//! Clusters at a threshold: sets of nodes that hang together, and what
//! seals them off.

use vstd::prelude::*;

use crate::tfce::approximate_tfce::{joined_within, live};
use crate::voxel::{is_path, linked, Voxel};

verus! {

/// Any two nodes of the set are joined by a path inside the set.
pub open spec fn connected_inside(g: Seq<Voxel>, set: Seq<usize>) -> bool {
    forall|a: usize, b: usize|
        set.contains(a) && set.contains(b) ==> #[trigger] joined_within(g, set, a as int, b as int)
}

/// Every node outside the set that a node of the set links to lies at or
/// below `bound`.
pub open spec fn sealed(g: Seq<Voxel>, set: Seq<usize>, bound: u64) -> bool {
    forall|z: usize, y: int|
        set.contains(z) && #[trigger] linked(g, z as int, y) && !set.contains(y as usize)
            ==> g[y].value <= bound
}

/// A path leads from `a` to `b` through nodes at or above the threshold.
pub open spec fn joined_above(g: Seq<Voxel>, min_value: u64, a: int, b: int) -> bool {
    exists|p: Seq<int>|
        {
            &&& #[trigger] is_path(g, p)
            &&& p.len() >= 1
            &&& p[0] == a
            &&& p[p.len() - 1] == b
            &&& forall|k: int| 0 <= k < p.len() ==> live(g, min_value, p[k])
        }
}

/// `small` holds no node that `large` does not hold.
pub open spec fn within(small: Seq<usize>, large: Seq<usize>) -> bool {
    forall|x: usize| small.contains(x) ==> large.contains(x)
}

/// A path inside a set is a path inside any set that holds the set.
pub proof fn lemma_joined_widened(g: Seq<Voxel>, small: Seq<usize>, large: Seq<usize>, a: int, b: int)
    requires
        within(small, large),
        joined_within(g, small, a, b),
    ensures
        joined_within(g, large, a, b),
{
    let p = choose|p: Seq<int>|
        {
            &&& #[trigger] is_path(g, p)
            &&& p.len() >= 1
            &&& p[0] == a
            &&& p[p.len() - 1] == b
            &&& forall|k: int| 0 <= k < p.len() ==> small.contains(p[k] as usize)
        };
    assert forall|k: int| 0 <= k < p.len() implies large.contains(p[k] as usize) by {
        assert(small.contains(p[k] as usize));
    }
}

/// Two paths inside a set, one ending where the other begins, make a path
/// inside the set.
pub proof fn lemma_joined_chained(g: Seq<Voxel>, set: Seq<usize>, a: int, b: int, c: int)
    requires
        joined_within(g, set, a, b),
        joined_within(g, set, b, c),
    ensures
        joined_within(g, set, a, c),
{
    let p = choose|p: Seq<int>|
        {
            &&& #[trigger] is_path(g, p)
            &&& p.len() >= 1
            &&& p[0] == a
            &&& p[p.len() - 1] == b
            &&& forall|k: int| 0 <= k < p.len() ==> set.contains(p[k] as usize)
        };
    let q = choose|q: Seq<int>|
        {
            &&& #[trigger] is_path(g, q)
            &&& q.len() >= 1
            &&& q[0] == b
            &&& q[q.len() - 1] == c
            &&& forall|k: int| 0 <= k < q.len() ==> set.contains(q[k] as usize)
        };
    let r = p + q.drop_first();
    assert(is_path(g, r)) by {
        assert forall|k: int| 0 <= k < r.len() - 1 implies #[trigger] linked(g, r[k], r[k + 1]) by {
            if k < p.len() - 1 {
                assert(linked(g, p[k], p[k + 1]));
            } else {
                let j = k - (p.len() - 1);
                assert(linked(g, q[j], q[j + 1]));
            }
        }
    }
    assert forall|k: int| 0 <= k < r.len() implies set.contains(r[k] as usize) by {
        if k < p.len() {
            assert(r[k] == p[k]);
        } else {
            assert(r[k] == q[k - p.len() + 1]);
        }
    }
    assert(r[0] == a && r[r.len() - 1] == c);
}

/// A link between two nodes of a set is a path inside the set.
pub proof fn lemma_joined_by_link(g: Seq<Voxel>, set: Seq<usize>, a: usize, b: usize)
    requires
        set.contains(a),
        set.contains(b),
        linked(g, a as int, b as int),
    ensures
        joined_within(g, set, a as int, b as int),
{
    let p = seq![a as int, b as int];
    assert(is_path(g, p)) by {
        assert forall|k: int| 0 <= k < p.len() - 1 implies #[trigger] linked(g, p[k], p[k + 1]) by {
            assert(k == 0);
        }
    }
    assert forall|k: int| 0 <= k < p.len() implies set.contains(p[k] as usize) by {
        if k == 1 {
            assert(p[1] == b);
        }
    }
    assert(p[0] == a as int && p[p.len() - 1] == b as int);
}

/// A node of a set is joined to itself inside the set.
pub proof fn lemma_joined_to_itself(g: Seq<Voxel>, set: Seq<usize>, a: usize)
    requires
        set.contains(a),
    ensures
        joined_within(g, set, a as int, a as int),
{
    let p = seq![a as int];
    assert(is_path(g, p));
    assert(p[0] == a as int);
}

/// Two connected sets with a link in both directions between them make a
/// connected set.
pub proof fn lemma_connected_union(
    g: Seq<Voxel>,
    left: Seq<usize>,
    right: Seq<usize>,
    both: Seq<usize>,
    z: usize,
    c: usize,
)
    requires
        connected_inside(g, left),
        connected_inside(g, right),
        forall|x: usize| both.contains(x) <==> left.contains(x) || right.contains(x),
        left.contains(z),
        right.contains(c),
        linked(g, z as int, c as int),
        linked(g, c as int, z as int),
    ensures
        connected_inside(g, both),
{
    assert(within(left, both));
    assert(within(right, both));
    lemma_joined_by_link(g, both, z, c);
    lemma_joined_by_link(g, both, c, z);
    assert forall|a: usize, b: usize| both.contains(a) && both.contains(b) implies #[trigger] joined_within(
        g,
        both,
        a as int,
        b as int,
    ) by {
        if left.contains(a) {
            assert(joined_within(g, left, a as int, z as int));
            lemma_joined_widened(g, left, both, a as int, z as int);
            if left.contains(b) {
                assert(joined_within(g, left, a as int, b as int));
                lemma_joined_widened(g, left, both, a as int, b as int);
            } else {
                assert(joined_within(g, right, c as int, b as int));
                lemma_joined_widened(g, right, both, c as int, b as int);
                lemma_joined_chained(g, both, a as int, z as int, c as int);
                lemma_joined_chained(g, both, a as int, c as int, b as int);
            }
        } else {
            assert(joined_within(g, right, a as int, c as int));
            lemma_joined_widened(g, right, both, a as int, c as int);
            if right.contains(b) {
                assert(joined_within(g, right, a as int, b as int));
                lemma_joined_widened(g, right, both, a as int, b as int);
            } else {
                assert(joined_within(g, left, z as int, b as int));
                lemma_joined_widened(g, left, both, z as int, b as int);
                lemma_joined_chained(g, both, a as int, c as int, z as int);
                lemma_joined_chained(g, both, a as int, z as int, b as int);
            }
        }
    }
}

/// A set of one node is connected.
pub proof fn lemma_connected_single(g: Seq<Voxel>, set: Seq<usize>, c: usize)
    requires
        forall|x: usize| set.contains(x) <==> x == c,
    ensures
        connected_inside(g, set),
{
    assert forall|a: usize, b: usize| set.contains(a) && set.contains(b) implies #[trigger] joined_within(
        g,
        set,
        a as int,
        b as int,
    ) by {
        lemma_joined_to_itself(g, set, c);
    }
}

/// A connected set whose nodes all lie at or above a threshold, and which
/// is sealed below the threshold, is the cluster of each of its nodes at
/// that threshold.
pub proof fn lemma_sealed_is_cluster(
    g: Seq<Voxel>,
    set: Seq<usize>,
    min_value: u64,
    bound: u64,
    x: usize,
    y: int,
)
    requires
        g.len() <= usize::MAX,
        connected_inside(g, set),
        sealed(g, set, bound),
        bound < min_value,
        forall|i: usize| set.contains(i) ==> live(g, min_value, i as int),
        set.contains(x),
    ensures
        joined_above(g, min_value, x as int, y) <==> 0 <= y < g.len() && set.contains(y as usize),
{
    if 0 <= y < g.len() && set.contains(y as usize) {
        assert(joined_within(g, set, x as int, y as usize as int));
        let p = choose|p: Seq<int>|
            {
                &&& #[trigger] is_path(g, p)
                &&& p.len() >= 1
                &&& p[0] == x as int
                &&& p[p.len() - 1] == y
                &&& forall|k: int| 0 <= k < p.len() ==> set.contains(p[k] as usize)
            };
        assert forall|k: int| 0 <= k < p.len() implies live(g, min_value, p[k]) by {
            lemma_path_in_set(g, set, min_value, p, k);
        }
    }
    if joined_above(g, min_value, x as int, y) {
        let p = choose|p: Seq<int>|
            {
                &&& #[trigger] is_path(g, p)
                &&& p.len() >= 1
                &&& p[0] == x as int
                &&& p[p.len() - 1] == y
                &&& forall|k: int| 0 <= k < p.len() ==> live(g, min_value, p[k])
            };
        lemma_path_stays(g, set, min_value, bound, p, p.len() - 1);
    }
}

/// The nodes of a path inside a set of nodes at or above the threshold are
/// the set's nodes.
proof fn lemma_path_in_set(g: Seq<Voxel>, set: Seq<usize>, min_value: u64, p: Seq<int>, k: int)
    requires
        g.len() <= usize::MAX,
        is_path(g, p),
        0 <= k < p.len(),
        0 <= p[0] <= usize::MAX,
        forall|i: usize| set.contains(i) ==> live(g, min_value, i as int),
        forall|n: int| 0 <= n < p.len() ==> set.contains(p[n] as usize),
    ensures
        live(g, min_value, p[k]),
{
    assert(set.contains(p[k] as usize));
    assert(live(g, min_value, p[k] as usize as int));
    if k > 0 {
        let j = k - 1;
        assert(linked(g, p[j], p[j + 1]));
        let at = choose|at: int|
            0 <= at < g[p[j]].voxel_links@.len() && #[trigger] g[p[j]].voxel_links@[at] == p[k];
        assert(p[k] == g[p[j]].voxel_links@[at]);
    }
}

/// A path through nodes at or above the threshold that begins in a set
/// sealed below the threshold stays in the set.
proof fn lemma_path_stays(
    g: Seq<Voxel>,
    set: Seq<usize>,
    min_value: u64,
    bound: u64,
    p: Seq<int>,
    k: int,
)
    requires
        g.len() <= usize::MAX,
        sealed(g, set, bound),
        bound < min_value,
        is_path(g, p),
        0 <= k < p.len(),
        0 <= p[0] <= usize::MAX,
        set.contains(p[0] as usize),
        forall|n: int| 0 <= n < p.len() ==> live(g, min_value, p[n]),
    ensures
        0 <= p[k] < g.len(),
        set.contains(p[k] as usize),
    decreases k,
{
    assert(live(g, min_value, p[k]));
    if k > 0 {
        lemma_path_stays(g, set, min_value, bound, p, k - 1);
        let j = k - 1;
        assert(linked(g, p[j], p[j + 1]));
        assert(linked(g, p[j] as usize as int, p[k]));
    }
}

} // verus!
