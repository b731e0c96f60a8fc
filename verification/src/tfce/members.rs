//! The nodes of a fragment as a list, and the part of it that a node of
//! the spine stands for.

use vstd::multiset::*;
use vstd::prelude::*;

use crate::tfce::cluster::Fragment;
use crate::tfce::consistency::{
    all_nodes, ceiling, consistent, fragment_at, sorted_spine, stack_nodes,
};
use crate::tfce::descent::{Suspended, Traversal};
use crate::tfce::heap_order::{bounded_below, exit_value, levels_bounded};
use crate::voxel::{valid_graph, Voxel};

verus! {

/// The nodes of the children's subtrees.
pub open spec fn child_members(f: Fragment) -> Seq<usize>
    decreases f, 0int,
{
    (match f.first {
        Some(c) => members(*c),
        None => Seq::empty(),
    }) + (match f.second {
        Some(c) => members(*c),
        None => Seq::empty(),
    })
}

/// The nodes of the subtree: those of the children, then the spine.
pub open spec fn members(f: Fragment) -> Seq<usize>
    decreases f, 1int,
{
    child_members(f) + f.spine
}

/// The cluster that node `j` of the spine stands for: the nodes of the
/// children's subtrees and the spine up to that node.
pub open spec fn enclosed(f: Fragment, j: int) -> Seq<usize> {
    child_members(f) + f.spine.take(j + 1)
}

/// The list of the members holds what the multiset of the nodes holds.
pub proof fn lemma_members_are_nodes(f: Fragment)
    ensures
        members(f).to_multiset() == f.nodes(),
        child_members(f).to_multiset() == (match f.first {
            Some(c) => c.nodes(),
            None => Multiset::empty(),
        }).add(
            match f.second {
                Some(c) => c.nodes(),
                None => Multiset::empty(),
            },
        ),
    decreases f,
{
    broadcast use vstd::seq_lib::group_to_multiset_ensures;

    let a: Seq<usize> = match f.first {
        Some(c) => members(*c),
        None => Seq::empty(),
    };
    let b: Seq<usize> = match f.second {
        Some(c) => members(*c),
        None => Seq::empty(),
    };
    match f.first {
        Some(c) => lemma_members_are_nodes(*c),
        None => {},
    }
    match f.second {
        Some(c) => lemma_members_are_nodes(*c),
        None => {},
    }
    vstd::seq_lib::lemma_multiset_commutative(a, b);
    vstd::seq_lib::lemma_multiset_commutative(a + b, f.spine);
    assert(child_members(f) == a + b);
    assert(members(f).to_multiset() =~= f.nodes());
}

/// A node is a member if and only if the multiset of the nodes holds it.
pub proof fn lemma_member_counts(f: Fragment, i: usize)
    ensures
        members(f).contains(i) <==> f.nodes().count(i) > 0,
{
    broadcast use vstd::seq_lib::group_to_multiset_ensures;

    lemma_members_are_nodes(f);
}

/// A well-formed fragment has as many members as its size says, and the
/// cluster that a node of its spine stands for has the size that the
/// integration gives it.
pub proof fn lemma_enclosed_len(f: Fragment, j: int)
    requires
        f.well_formed(),
        0 <= j < f.spine.len(),
    ensures
        members(f).len() == f.size,
        enclosed(f, j).len() == f.size - (f.spine.len() - 1 - j),
{
    broadcast use vstd::seq_lib::group_to_multiset_ensures;

    lemma_members_are_nodes(f);
    f.lemma_size_counts_nodes();
}

/// No member of a fragment that is bounded below lies below the bound, and
/// no member of its children lies below the first node of its spine.
pub proof fn lemma_members_bounded(g: Seq<Voxel>, f: Fragment, bound: u64, i: usize)
    requires
        bounded_below(g, f, bound),
        members(f).contains(i),
    ensures
        g[i as int].value >= bound,
        child_members(f).contains(i) ==> g[i as int].value >= exit_value(g, f, bound),
    decreases f,
{
    let k = choose|k: int| 0 <= k < members(f).len() && members(f)[k] == i;
    let a: Seq<usize> = match f.first {
        Some(c) => members(*c),
        None => Seq::empty(),
    };
    let b: Seq<usize> = match f.second {
        Some(c) => members(*c),
        None => Seq::empty(),
    };
    assert(child_members(f) == a + b);
    if f.spine.len() > 0 {
        assert(g[f.spine[0] as int].value >= bound);
    }
    if k < a.len() {
        assert(a[k] == i);
        lemma_members_bounded(g, *(f.first->Some_0), exit_value(g, f, bound), i);
    } else if k < a.len() + b.len() {
        assert(b[k - a.len()] == i);
        lemma_members_bounded(g, *(f.second->Some_0), exit_value(g, f, bound), i);
    } else {
        assert(f.spine[k - a.len() - b.len()] == i);
    }
    if child_members(f).contains(i) {
        let n = choose|n: int| 0 <= n < (a + b).len() && (a + b)[n] == i;
        if n < a.len() {
            assert(a[n] == i);
            lemma_members_bounded(g, *(f.first->Some_0), exit_value(g, f, bound), i);
        } else {
            assert(b[n - a.len()] == i);
            lemma_members_bounded(g, *(f.second->Some_0), exit_value(g, f, bound), i);
        }
    }
}

/// No node of the cluster that a node of the spine stands for lies below
/// that node.
pub proof fn lemma_enclosed_bounded(g: Seq<Voxel>, f: Fragment, bound: u64, j: int, i: usize)
    requires
        bounded_below(g, f, bound),
        sorted_spine(g, f.spine),
        0 <= j < f.spine.len(),
        enclosed(f, j).contains(i),
    ensures
        g[i as int].value >= g[f.spine[j] as int].value,
        members(f).contains(i),
{
    let e = enclosed(f, j);
    let k = choose|k: int| 0 <= k < e.len() && e[k] == i;
    let kids = child_members(f);
    if k < kids.len() {
        assert(kids[k] == i);
        assert(members(f)[k] == i);
        lemma_members_bounded(g, f, bound, i);
        assert(g[f.spine[0] as int].value >= g[f.spine[j] as int].value);
    } else {
        let n = k - kids.len();
        assert(f.spine[n] == i);
        assert(members(f)[k] == i);
        assert(g[f.spine[n] as int].value >= g[f.spine[j] as int].value);
    }
}

/// Node `i` is a member of the fragment of some level.
pub open spec fn at_level(s: Traversal, k: int, i: usize) -> bool {
    0 <= k <= s.stack.len() && members(fragment_at(s, k)).contains(i)
}

/// The nodes of the suspended fragments are the members of the levels
/// below the active one.
proof fn lemma_stack_nodes_levels(stack: Seq<Suspended>, i: usize)
    ensures
        stack_nodes(stack).count(i) > 0 <==> exists|k: int|
            0 <= k < stack.len() && #[trigger] stack[k].cluster.nodes().count(i) > 0,
        forall|k: int|
            0 <= k < stack.len() ==> stack_nodes(stack).count(i)
                >= (#[trigger] stack[k]).cluster.nodes().count(i),
        forall|k: int, n: int|
            0 <= k < n < stack.len() ==> stack_nodes(stack).count(i)
                >= (#[trigger] stack[k]).cluster.nodes().count(i) + (
            #[trigger] stack[n]).cluster.nodes().count(i),
    decreases stack.len(),
{
    if stack.len() > 0 {
        let head = stack.drop_last();
        lemma_stack_nodes_levels(head, i);
        assert forall|k: int| 0 <= k < head.len() implies head[k] == stack[k] by {}
        if stack_nodes(stack).count(i) > 0 {
            if stack_nodes(head).count(i) > 0 {
                let k = choose|k: int|
                    0 <= k < head.len() && #[trigger] head[k].cluster.nodes().count(i) > 0;
                assert(stack[k].cluster.nodes().count(i) > 0);
            } else {
                assert(stack[stack.len() - 1].cluster.nodes().count(i) > 0);
            }
        }
        assert forall|k: int, n: int| 0 <= k < n < stack.len() implies stack_nodes(stack).count(i)
            >= (#[trigger] stack[k]).cluster.nodes().count(i) + (
        #[trigger] stack[n]).cluster.nodes().count(i) by {
            if n < head.len() {
                assert(head[k] == stack[k] && head[n] == stack[n]);
            } else {
                assert(head[k] == stack[k]);
            }
        }
    }
}

/// In a consistent state the visited nodes are the members of the levels,
/// each of one level only, no node is listed twice, and no member lies
/// below the ceiling of its level.
pub proof fn lemma_levels(g: Seq<Voxel>, s: Traversal, i: usize)
    requires
        valid_graph(g),
        consistent(g, s),
    ensures
        (i < g.len() && s.visited[i as int]) <==> exists|k: int| #[trigger] at_level(s, k, i),
        forall|k: int, n: int| at_level(s, k, i) && at_level(s, n, i) ==> k == n,
        forall|k: int|
            0 <= k <= s.stack.len() ==> (#[trigger] fragment_at(s, k)).nodes().count(i) <= 1,
{
    let top = s.stack.len() as int;
    lemma_stack_nodes_levels(s.stack, i);
    assert(all_nodes(s).count(i) == s.current.nodes().count(i) + stack_nodes(s.stack).count(i));
    assert(all_nodes(s).count(i) <= 1);
    assert forall|k: int| 0 <= k <= top implies (members(fragment_at(s, k)).contains(i)
        <==> #[trigger] fragment_at(s, k).nodes().count(i) > 0) by {
        lemma_member_counts(fragment_at(s, k), i);
    }
    if i < g.len() && s.visited[i as int] {
        assert(all_nodes(s).count(i) == 1);
        if s.current.nodes().count(i) > 0 {
            assert(fragment_at(s, top) == s.current);
            assert(at_level(s, top, i));
        } else {
            let k = choose|k: int|
                0 <= k < s.stack.len() && #[trigger] s.stack[k].cluster.nodes().count(i) > 0;
            assert(fragment_at(s, k) == s.stack[k].cluster);
            assert(at_level(s, k, i));
        }
    }
    if exists|k: int| #[trigger] at_level(s, k, i) {
        let k = choose|k: int| #[trigger] at_level(s, k, i);
        assert(fragment_at(s, k).nodes().count(i) > 0);
        if k < top {
            assert(s.stack[k].cluster.nodes().count(i) > 0);
        }
        assert(all_nodes(s).count(i) > 0);
    }
    assert forall|k: int, n: int| at_level(s, k, i) && at_level(s, n, i) implies k == n by {
        assert(fragment_at(s, k).nodes().count(i) > 0);
        assert(fragment_at(s, n).nodes().count(i) > 0);
        if k < n {
            if n == top {
                assert(s.stack[k].cluster.nodes().count(i) > 0);
            } else {
                assert(s.stack[k].cluster.nodes().count(i) + s.stack[n].cluster.nodes().count(i)
                    <= stack_nodes(s.stack).count(i));
            }
        } else if n < k {
            if k == top {
                assert(s.stack[n].cluster.nodes().count(i) > 0);
            } else {
                assert(s.stack[n].cluster.nodes().count(i) + s.stack[k].cluster.nodes().count(i)
                    <= stack_nodes(s.stack).count(i));
            }
        }
    }
    assert forall|k: int| 0 <= k <= top implies (#[trigger] fragment_at(s, k)).nodes().count(i)
        <= 1 by {
        if k < top {
            assert(stack_nodes(s.stack).count(i) >= s.stack[k].cluster.nodes().count(i));
        }
    }
}

/// No member of a level lies below the ceiling of the level.
pub proof fn lemma_level_bounded(g: Seq<Voxel>, s: Traversal, k: int, i: usize)
    requires
        levels_bounded(g, s),
        at_level(s, k, i),
    ensures
        g[i as int].value >= ceiling(s, k),
{
    assert(bounded_below(g, fragment_at(s, k), ceiling(s, k)));
    lemma_members_bounded(g, fragment_at(s, k), ceiling(s, k), i);
}

} // verus!
