//! Lower fragments hold lower values: no node of a subtree lies below the
//! node from which the integration enters the subtree.

use vstd::multiset::*;
use vstd::prelude::*;

use crate::tfce::cluster::Fragment;
use crate::tfce::consistency::{ceiling, consistent, fragment_at, fresh, fresh_at, queue_at};
use crate::tfce::descent::{lemma_has_top, merged, run, start, step, top_of, Traversal};
use crate::tfce::preservation::lemma_diverted_consistent;
use crate::tfce::progress::{cluster_tree, lemma_finishes, lemma_run_consistent, steps_to_finish};
use crate::voxel::{valid_graph, Voxel};

verus! {

/// The value below which no node of the children of a fragment may lie:
/// the value of the first node of the spine, or `bound` if the spine is
/// empty.
pub open spec fn exit_value(g: Seq<Voxel>, f: Fragment, bound: u64) -> u64 {
    if f.spine.len() == 0 {
        bound
    } else {
        g[f.spine[0] as int].value
    }
}

/// No node of the spine lies below `bound`, and no node of a child's
/// subtree lies below the first node of the spine.
pub open spec fn bounded_below(g: Seq<Voxel>, f: Fragment, bound: u64) -> bool
    decreases f,
{
    &&& forall|k: int| 0 <= k < f.spine.len() ==> g[#[trigger] f.spine[k] as int].value >= bound
    &&& match f.first {
        Some(c) => bounded_below(g, *c, exit_value(g, f, bound)),
        None => true,
    }
    &&& match f.second {
        Some(c) => bounded_below(g, *c, exit_value(g, f, bound)),
        None => true,
    }
}

/// A lower bound can be lowered.
pub proof fn lemma_bound_lowered(g: Seq<Voxel>, f: Fragment, bound: u64, lower: u64)
    requires
        bounded_below(g, f, bound),
        lower <= bound,
    ensures
        bounded_below(g, f, lower),
    decreases f,
{
    if f.spine.len() == 0 {
        match f.first {
            Some(c) => lemma_bound_lowered(g, *c, bound, lower),
            None => {},
        }
        match f.second {
            Some(c) => lemma_bound_lowered(g, *c, bound, lower),
            None => {},
        }
    }
}

/// Every fragment, active or suspended, is bounded below by the value at
/// which its level stands.
pub open spec fn levels_bounded(g: Seq<Voxel>, s: Traversal) -> bool {
    forall|k: int| 0 <= k <= s.stack.len() ==> bounded_below(g, #[trigger] fragment_at(s, k), ceiling(s, k))
}

/// A step keeps every fragment bounded below.
pub proof fn lemma_step_bounded(g: Seq<Voxel>, s: Traversal)
    requires
        valid_graph(g),
        consistent(g, s),
        levels_bounded(g, s),
    ensures
        levels_bounded(g, step(g, s)),
{
    let t = step(g, s);
    let top = s.stack.len() as int;
    assert(bounded_below(g, fragment_at(s, top), ceiling(s, top)));
    if s.queue.len() > 0 {
        lemma_has_top(s.queue);
        let e = top_of(s.queue);
        assert(queue_at(s, top).count(e) > 0);
        if s.visited[e.index as int] {
            assert forall|k: int| 0 <= k <= t.stack.len() implies bounded_below(
                g,
                #[trigger] fragment_at(t, k),
                ceiling(t, k),
            ) by {
                assert(fragment_at(t, k) == fragment_at(s, k) && ceiling(t, k) == ceiling(s, k));
            }
        } else if e.value < s.low_value && s.stack.len() > 0 {
            lemma_merged_bounded(g, s);
        } else if e.value <= s.current_value {
            let f = s.current;
            let grown = t.current;
            lemma_bound_lowered(g, f, s.current_value, e.value);
            assert(bounded_below(g, grown, e.value)) by {
                assert forall|k: int| 0 <= k < grown.spine.len() implies g[
                #[trigger] grown.spine[k] as int].value >= e.value by {
                    if k < f.spine.len() {
                        assert(grown.spine[k] == f.spine[k]);
                    }
                }
                if f.spine.len() == 0 {
                    assert(fresh(g, s));
                    let m = choose|m: int| fresh_at(g, s, m);
                } else {
                    assert(grown.spine[0] == f.spine[0]);
                    assert(exit_value(g, grown, e.value) == exit_value(g, f, e.value));
                }
            }
            assert forall|k: int| 0 <= k <= t.stack.len() implies bounded_below(
                g,
                #[trigger] fragment_at(t, k),
                ceiling(t, k),
            ) by {
                if k < top {
                    assert(fragment_at(t, k) == fragment_at(s, k) && ceiling(t, k) == ceiling(
                        s,
                        k,
                    ));
                }
            }
        } else {
            lemma_diverted_consistent(g, s, e);
            assert(bounded_below(g, Fragment::empty(), t.current_value));
            assert forall|k: int| 0 <= k <= t.stack.len() implies bounded_below(
                g,
                #[trigger] fragment_at(t, k),
                ceiling(t, k),
            ) by {
                if k <= top {
                    assert(fragment_at(t, k) == fragment_at(s, k) && ceiling(t, k) == ceiling(
                        s,
                        k,
                    ));
                }
            }
        }
    } else if s.stack.len() > 0 {
        lemma_merged_bounded(g, s);
    }
}

/// Joining with the topmost suspended branch keeps every fragment bounded
/// below.
proof fn lemma_merged_bounded(g: Seq<Voxel>, s: Traversal)
    requires
        valid_graph(g),
        consistent(g, s),
        levels_bounded(g, s),
        s.stack.len() > 0,
    ensures
        levels_bounded(g, merged(s)),
{
    let t = merged(s);
    let top = s.stack.len() - 1;
    let h = s.stack[top].cluster;
    let shared = h.spine.last();
    let rest = *(t.current.first->Some_0);
    assert(fragment_at(s, top) == h);
    assert(fragment_at(s, top + 1) == s.current);
    assert(bounded_below(g, h, ceiling(s, top)));
    assert(bounded_below(g, s.current, ceiling(s, top + 1)));
    assert(h.spine.len() >= 1 && g[shared as int].value == ceiling(s, top));
    assert(ceiling(s, top) <= ceiling(s, top + 1));
    let bound = g[shared as int].value;
    lemma_bound_lowered(g, s.current, s.current_value, bound);
    assert(bounded_below(g, rest, bound)) by {
        assert forall|k: int| 0 <= k < rest.spine.len() implies g[
        #[trigger] rest.spine[k] as int].value >= bound by {
            assert(rest.spine[k] == h.spine[k]);
        }
        if rest.spine.len() > 0 {
            assert(rest.spine[0] == h.spine[0]);
            assert(exit_value(g, rest, bound) == exit_value(g, h, bound));
        } else {
            assert(h.spine[0] == shared);
            assert(exit_value(g, rest, bound) == exit_value(g, h, bound));
        }
    }
    assert(bounded_below(g, t.current, bound)) by {
        assert(t.current.spine[0] == shared);
    }
    assert forall|k: int| 0 <= k <= t.stack.len() implies bounded_below(
        g,
        #[trigger] fragment_at(t, k),
        ceiling(t, k),
    ) by {
        if k < top {
            assert(fragment_at(t, k) == fragment_at(s, k) && ceiling(t, k) == ceiling(s, k));
        }
    }
}

/// After any number of steps every fragment is bounded below.
pub proof fn lemma_run_bounded(g: Seq<Voxel>, n: nat)
    requires
        valid_graph(g),
    ensures
        levels_bounded(g, run(g, n)),
    decreases n,
{
    if n == 0 {
        assert(bounded_below(g, Fragment::empty(), start(g).current_value));
        assert(fragment_at(start(g), 0) == Fragment::empty());
    } else {
        lemma_run_bounded(g, (n - 1) as nat);
        lemma_run_consistent(g, (n - 1) as nat);
        lemma_step_bounded(g, run(g, (n - 1) as nat));
    }
}

/// In the cluster tree no node of a child's subtree lies below the first
/// node of its parent's spine.
pub proof fn lemma_cluster_tree_bounded(g: Seq<Voxel>)
    requires
        valid_graph(g),
    ensures
        bounded_below(g, cluster_tree(g), 0),
{
    lemma_finishes(g);
    let n = steps_to_finish(g);
    let s = run(g, n);
    lemma_run_bounded(g, n);
    assert(fragment_at(s, 0) == s.current);
    lemma_bound_lowered(g, s.current, ceiling(s, 0), 0);
}

} // verus!
