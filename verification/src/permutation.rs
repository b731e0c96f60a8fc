//! The permutation test: label swaps, the null distribution and the mask.

use rand::{Rng, SeedableRng, StdRng};
use vstd::prelude::*;
use vstd::relations::{sorted_by, total_ordering};
use vstd::seq_lib::lemma_sorted_unique;

use crate::voxel::ZERO_VALUE;

verus! {

/// `rand::StdRng`, the generator of the label swaps. Nothing is known of
/// what it holds.
#[verifier::external_type_specification]
#[verifier::external_body]
pub struct ExStdRng(StdRng);

/// `a` does not exceed `b`.
pub open spec fn at_most(a: u64, b: u64) -> bool {
    a <= b
}

/// The values in ascending order.
pub open spec fn ascending_order(values: Seq<u64>) -> Seq<u64> {
    values.sort_by(|a: u64, b: u64| at_most(a, b))
}

/// `rand::StdRng::from_seed`: a generator that starts from `seed`. Nothing
/// is claimed of the numbers it will give.
#[verifier::external_body]
fn seeded_rng(seed: &[usize]) -> StdRng {
    StdRng::from_seed(seed)
}

/// `rand::Rng::gen::<bool>` on the generator. Nothing is claimed of the
/// outcome.
#[verifier::external_body]
fn next_flag(rng: &mut StdRng) -> bool {
    rng.gen()
}

/// The slice method `sort` of std: afterwards the values stand in
/// ascending order, and they are the values that were there before.
#[verifier::external_body]
fn sort_ascending(values: &mut Vec<u64>)
    ensures
        sorted_by(final(values)@, |a: u64, b: u64| at_most(a, b)),
        final(values)@.to_multiset() == old(values)@.to_multiset(),
{
    values.sort();
}

/// The greatest of the values and zero.
pub open spec fn null_maximum(values: Seq<u64>) -> u64
    decreases values.len(),
{
    if values.len() == 0 {
        ZERO_VALUE
    } else if values.last() > null_maximum(values.drop_last()) {
        values.last()
    } else {
        null_maximum(values.drop_last())
    }
}

/// The greatest of the values and zero bounds them all, and is one of them.
pub proof fn lemma_null_maximum(values: Seq<u64>)
    ensures
        null_maximum(values) >= ZERO_VALUE,
        forall|i: int| 0 <= i < values.len() ==> values[i] <= null_maximum(values),
        null_maximum(values) == ZERO_VALUE || values.contains(null_maximum(values)),
    decreases values.len(),
{
    if values.len() > 0 {
        let head = values.drop_last();
        lemma_null_maximum(head);
        assert forall|i: int| 0 <= i < values.len() implies values[i] <= null_maximum(values) by {
            if i < head.len() {
                assert(head[i] == values[i]);
            }
        }
        if values.last() > null_maximum(head) {
            assert(values[values.len() - 1] == values.last());
        } else if null_maximum(head) != ZERO_VALUE {
            let at = choose|at: int| 0 <= at < head.len() && head[at] == null_maximum(head);
            assert(values[at] == null_maximum(head));
        }
    }
}

/// The greatest enhanced value of one draw, or zero if none exceeds it.
pub fn greatest_value(values: &Vec<u64>) -> (greatest: u64)
    ensures
        greatest == null_maximum(values@),
{
    let mut greatest: u64 = ZERO_VALUE;
    let mut i: usize = 0;
    assert(values@.take(0) =~= Seq::<u64>::empty());
    while i < values.len()
        invariant
            0 <= i <= values.len(),
            greatest == null_maximum(values@.take(i as int)),
        decreases values.len() - i,
    {
        assert(values@.take(i + 1).drop_last() =~= values@.take(i as int));
        if values[i] > greatest {
            greatest = values[i];
        }
        i += 1;
    }
    assert(values@.take(i as int) =~= values@);
    greatest
}

/// The place of the cutoff in a null distribution of `n` draws, counted
/// from zero in ascending order: 95 hundredths of `n`, rounded down.
pub open spec fn cutoff_index(n: int) -> int {
    95 * n / 100
}

/// The significance cutoff of a null distribution: in ascending order, the
/// value at the place `cutoff_index`.
pub open spec fn cutoff_of(distribution: Seq<u64>) -> u64 {
    ascending_order(distribution)[cutoff_index(distribution.len() as int)]
}

/// Not exceeding is a total order.
proof fn lemma_at_most_total()
    ensures
        total_ordering(|a: u64, b: u64| at_most(a, b)),
{
    let leq = |a: u64, b: u64| at_most(a, b);
    assert(vstd::relations::reflexive(leq));
    assert(vstd::relations::antisymmetric(leq));
    assert(vstd::relations::transitive(leq));
    assert(vstd::relations::strongly_connected(leq));
}

/// The significance cutoff of a null distribution.
pub fn significance_cutoff(distribution: Vec<u64>) -> (cutoff: u64)
    requires
        distribution.len() >= 1,
    ensures
        cutoff == cutoff_of(distribution@),
{
    let mut sorted = distribution;
    sort_ascending(&mut sorted);
    proof {
        let leq = |a: u64, b: u64| at_most(a, b);
        lemma_at_most_total();
        distribution@.lemma_sort_by_ensures(leq);
        lemma_sorted_unique(sorted@, distribution@.sort_by(leq), leq);
        sorted@.to_multiset_ensures();
        distribution@.to_multiset_ensures();
    }
    let n: usize = sorted.len();
    let index: usize = if n <= 0x100_0000 {
        95 * n / 100
    } else {
        n / 100 * 95 + n % 100 * 95 / 100
    };
    assert(index == 95 * n / 100) by (nonlinear_arith)
        requires
            index == if n <= 0x100_0000 {
                95 * n / 100
            } else {
                n / 100 * 95 + n % 100 * 95 / 100
            },
    ;
    sorted[index]
}

/// The mask of the values that reach the cutoff.
pub fn significance_mask(values: &Vec<u64>, cutoff: u64) -> (mask: Vec<bool>)
    ensures
        mask.len() == values.len(),
        forall|i: int| 0 <= i < values.len() ==> mask[i] == (values[i] >= cutoff),
{
    let mut mask: Vec<bool> = Vec::new();
    let mut i: usize = 0;
    while i < values.len()
        invariant
            0 <= i <= values.len(),
            mask.len() == i,
            forall|j: int| 0 <= j < i ==> mask[j] == (values[j] >= cutoff),
        decreases values.len() - i,
    {
        mask.push(values[i] >= cutoff);
        i += 1;
    }
    mask
}

/// A permutation test under way: the generator of the label swaps, and the
/// null distribution as far as it has been recorded.
pub struct Permutation {
    rng: StdRng,
    subjects: usize,
    draws: usize,
    distribution: Vec<u64>,
}

impl Permutation {
    /// The number of subjects.
    pub closed spec fn subjects(&self) -> usize {
        self.subjects
    }

    /// The number of draws that make up the null distribution.
    pub closed spec fn draws(&self) -> usize {
        self.draws
    }

    /// The greatest values of the draws recorded so far.
    pub closed spec fn distribution(&self) -> Seq<u64> {
        self.distribution@
    }

    /// A permutation test of `n` draws on `subjects` subjects, with the
    /// generator at its fixed seed.
    pub fn new(subjects: usize, n: i32) -> (run: Permutation)
        requires
            n >= 1,
        ensures
            run.subjects() == subjects,
            run.draws() == n,
            run.distribution() == Seq::<u64>::empty(),
    {
        let mut seed: Vec<usize> = Vec::new();
        seed.push(17556);
        seed.push(31771);
        seed.push(29830);
        seed.push(29830);
        Permutation {
            rng: seeded_rng(seed.as_slice()),
            subjects,
            draws: n as usize,
            distribution: Vec::new(),
        }
    }

    /// Whether every draw has been recorded.
    pub fn is_complete(&self) -> (complete: bool)
        ensures
            complete == (self.distribution().len() >= self.draws()),
    {
        self.distribution.len() >= self.draws
    }

    /// The labels of one draw: for each subject, whether it keeps its two
    /// conditions as they are (`true`) or exchanges them (`false`).
    pub fn draw(&mut self) -> (keep: Vec<bool>)
        ensures
            keep.len() == old(self).subjects(),
            final(self).subjects() == old(self).subjects(),
            final(self).draws() == old(self).draws(),
            final(self).distribution() == old(self).distribution(),
    {
        let mut keep: Vec<bool> = Vec::new();
        let mut s: usize = 0;
        while s < self.subjects
            invariant
                0 <= s <= self.subjects,
                keep.len() == s,
                self.subjects == old(self).subjects,
                self.draws == old(self).draws,
                self.distribution == old(self).distribution,
            decreases self.subjects - s,
        {
            keep.push(next_flag(&mut self.rng));
            s += 1;
        }
        keep
    }

    /// Records the enhanced values of one draw: their greatest, or zero if
    /// none exceeds it, joins the null distribution.
    pub fn record(&mut self, values: &Vec<u64>)
        ensures
            final(self).subjects() == old(self).subjects(),
            final(self).draws() == old(self).draws(),
            final(self).distribution() == old(self).distribution().push(null_maximum(values@)),
    {
        self.distribution.push(greatest_value(values));
    }

    /// The significance mask of the enhanced values of the unpermuted data:
    /// a node is flagged if its value reaches the cutoff of the null
    /// distribution.
    pub fn finish(self, values: &Vec<u64>) -> (mask: Vec<bool>)
        requires
            self.distribution().len() >= 1,
        ensures
            mask.len() == values.len(),
            forall|i: int|
                0 <= i < values.len() ==> mask[i] == (values[i] >= cutoff_of(self.distribution())),
    {
        let cutoff = significance_cutoff(self.distribution);
        significance_mask(values, cutoff)
    }
}

/// `op` can give, for some labels of the subjects, enhanced values whose
/// greatest is `greatest`.
pub open spec fn drawn_by<F: Fn(&Vec<bool>) -> Vec<u64>>(op: F, subjects: usize, greatest: u64) -> bool {
    exists|keep: Vec<bool>, values: Vec<u64>|
        keep.len() == subjects && #[trigger] call_ensures(op, (&keep,), values) && greatest
            == null_maximum(values@)
}

/// `op` gave the enhanced values of `n` draws of labels, whose greatest
/// values make up `distribution`, and for the unpermuted labels the
/// enhanced values `values`, which `mask` flags where they reach the
/// cutoff of the distribution.
pub open spec fn outcome_of<F: Fn(&Vec<bool>) -> Vec<u64>>(
    op: F,
    subjects: usize,
    n: int,
    mask: Seq<bool>,
    distribution: Seq<u64>,
    keep: Vec<bool>,
    values: Vec<u64>,
) -> bool {
    &&& distribution.len() == n
    &&& forall|i: int| 0 <= i < n ==> drawn_by(op, subjects, #[trigger] distribution[i])
    &&& keep@ == Seq::new(subjects as nat, |i: int| true)
    &&& call_ensures(op, (&keep,), values)
    &&& mask.len() == values.len()
    &&& forall|i: int| 0 <= i < values.len() ==> mask[i] == (values[i] >= cutoff_of(distribution))
}

/// `mask` is a significance mask that a permutation test of `n` draws on
/// `subjects` subjects can give.
pub open spec fn tested_by<F: Fn(&Vec<bool>) -> Vec<u64>>(
    op: F,
    subjects: usize,
    n: int,
    mask: Seq<bool>,
) -> bool {
    exists|distribution: Seq<u64>, keep: Vec<bool>, values: Vec<u64>| #[trigger]
        outcome_of(op, subjects, n, mask, distribution, keep, values)
}

/// Runs a permutation test of `n` draws: for each draw, `op` is given the
/// labels of the subjects, `true` for a subject that keeps its two
/// conditions and `false` for one that exchanges them, and returns the
/// enhanced values; at the end it is given the unpermuted labels. The mask
/// flags the nodes whose enhanced value for the unpermuted labels reaches
/// the cutoff of the null distribution.
pub fn run_permutation<F: Fn(&Vec<bool>) -> Vec<u64>>(subjects: usize, n: i32, op: F) -> (mask:
    Vec<bool>)
    requires
        n >= 1,
        forall|keep: &Vec<bool>| keep.len() == subjects ==> #[trigger] call_requires(op, (keep,)),
    ensures
        tested_by(op, subjects, n as int, mask@),
{
    let mut run = Permutation::new(subjects, n);
    while !run.is_complete()
        invariant
            n >= 1,
            run.subjects() == subjects,
            run.draws() == n,
            run.distribution().len() <= n,
            forall|keep: &Vec<bool>|
                keep.len() == subjects ==> #[trigger] call_requires(op, (keep,)),
            forall|i: int|
                0 <= i < run.distribution().len() ==> drawn_by(
                    op,
                    subjects,
                    #[trigger] run.distribution()[i],
                ),
        decreases n - run.distribution().len(),
    {
        let keep = run.draw();
        let values = op(&keep);
        let ghost before = run.distribution();
        run.record(&values);
        proof {
            assert(drawn_by(op, subjects, null_maximum(values@)));
            assert forall|i: int| 0 <= i < run.distribution().len() implies drawn_by(
                op,
                subjects,
                #[trigger] run.distribution()[i],
            ) by {
                if i < before.len() {
                    assert(run.distribution()[i] == before[i]);
                }
            }
        }
    }
    let mut keep: Vec<bool> = Vec::new();
    let mut s: usize = 0;
    while s < subjects
        invariant
            0 <= s <= subjects,
            keep@ == Seq::new(s as nat, |i: int| true),
        decreases subjects - s,
    {
        keep.push(true);
        assert(keep@ =~= Seq::new((s + 1) as nat, |i: int| true));
        s += 1;
    }
    let values = op(&keep);
    let ghost distribution = run.distribution();
    let mask = run.finish(&values);
    proof {
        assert(outcome_of(op, subjects, n as int, mask@, distribution, keep, values));
    }
    mask
}

/// The positions of the nodes flagged significant, in ascending order.
pub fn significant_indices(perm_result: &Vec<bool>) -> (indices: Vec<usize>)
    ensures
        forall|k: int| 0 <= k < indices.len() ==> indices[k] < perm_result.len() && perm_result[indices[k] as int],
        forall|a: int, b: int| 0 <= a < b < indices.len() ==> indices[a] < indices[b],
        forall|i: int| 0 <= i < perm_result.len() && perm_result[i] ==> indices@.contains(i as usize),
{
    let mut indices: Vec<usize> = Vec::new();
    let mut i: usize = 0;
    while i < perm_result.len()
        invariant
            0 <= i <= perm_result.len(),
            forall|k: int| 0 <= k < indices.len() ==> indices[k] < i && perm_result[indices[k] as int],
            forall|a: int, b: int| 0 <= a < b < indices.len() ==> indices[a] < indices[b],
            forall|j: int| 0 <= j < i && perm_result[j] ==> indices@.contains(j as usize),
        decreases perm_result.len() - i,
    {
        if perm_result[i] {
            let ghost before = indices@;
            indices.push(i);
            assert forall|j: int| 0 <= j < i + 1 && perm_result[j] implies indices@.contains(
                j as usize,
            ) by {
                if j < i {
                    let k = choose|k: int| 0 <= k < before.len() && before[k] == j as usize;
                    assert(indices@[k] == j as usize);
                } else {
                    assert(indices@[indices.len() - 1] == i);
                }
            }
        }
        i += 1;
    }
    indices
}

} // verus!
