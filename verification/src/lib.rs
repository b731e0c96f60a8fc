//! Threshold-free cluster enhancement over graphs of scalar-valued nodes.

pub mod bytes;
pub mod field;
pub mod fiff;
pub mod freesurfer;
pub mod permutation;
pub mod stc;
pub mod tfce;
pub mod voxel;
pub mod voxel_priority;
pub mod voxel_queue;

use vstd::prelude::*;

use crate::bytes::{le_bytes, le_u32, le_u64, put_le_u32, read_le_u32, read_le_u64};
use crate::fiff::rows_of;

verus! {

/// The `n` eight-byte numbers, least significant byte first, that stand
/// from `at` on.
pub open spec fn values_at(file: Seq<u8>, at: int, n: int) -> Seq<u64> {
    Seq::new(n as nat, |k: int| le_u64(file, at + 8 * k))
}

/// The record that stands at `at`, with the position behind it: a count,
/// then as many values. `None` if the file ends before the record does.
pub open spec fn record_at(file: Seq<u8>, at: int) -> Option<(Seq<u64>, int)> {
    if at + 4 > file.len() {
        None
    } else if at + 4 + 8 * le_u32(file, at) > file.len() {
        None
    } else {
        Some((values_at(file, at + 4, le_u32(file, at) as int), at + 4 + 8 * le_u32(file, at)))
    }
}

/// The records of the first `count` subjects, those of the first condition
/// and those of the second, with the position behind them. For each subject
/// the file holds the record of the first condition, then that of the
/// second. `None` if the file ends before they do.
pub open spec fn subjects(file: Seq<u8>, count: nat) -> Option<
    (Seq<Seq<u64>>, Seq<Seq<u64>>, int),
>
    decreases count,
{
    if count == 0 {
        Some((Seq::empty(), Seq::empty(), 4))
    } else {
        match subjects(file, (count - 1) as nat) {
            None => None,
            Some((a, b, at)) => match record_at(file, at) {
                None => None,
                Some((sa, middle)) => match record_at(file, middle) {
                    None => None,
                    Some((sb, end)) => Some((a.push(sa), b.push(sb), end)),
                },
            },
        }
    }
}

/// The paired samples that the file holds: the number of subjects, then
/// their records. `None` if the file ends before the end of what it
/// announces.
pub open spec fn paired_samples(file: Seq<u8>) -> Option<(Seq<Seq<u64>>, Seq<Seq<u64>>)> {
    if file.len() < 4 {
        None
    } else {
        match subjects(file, le_u32(file, 0) as nat) {
            None => None,
            Some((a, b, _)) => Some((a, b)),
        }
    }
}

/// Reads the record that stands at `at`.
fn read_record(file: &[u8], at: usize) -> (r: Option<(Vec<u64>, usize)>)
    requires
        at <= file@.len(),
    ensures
        match r {
            Some((values, end)) => record_at(file@, at as int) == Some((values@, end as int))
                && end <= file@.len(),
            None => record_at(file@, at as int) is None,
        },
{
    let len: usize = file.len();
    if len - at < 4 {
        return None;
    }
    let n: u32 = read_le_u32(file, at);
    let start: usize = at + 4;
    if (len - start) / 8 < n as usize {
        return None;
    }
    let count: usize = n as usize;
    let mut values: Vec<u64> = Vec::new();
    let mut k: usize = 0;
    while k < count
        invariant
            0 <= k <= count,
            len == file@.len(),
            start + 8 * count <= len,
            values@ == values_at(file@, start as int, k as int),
        decreases count - k,
    {
        values.push(read_le_u64(file, start + 8 * k));
        assert(values@ =~= values_at(file@, start as int, k + 1));
        k += 1;
    }
    Some((values, start + 8 * count))
}

/// Reads the paired samples from the bytes of a data file: for each
/// subject the values of the first condition and those of the second,
/// each value as the 64 bits of its floating-point number. `None` if the
/// file ends before the end of what it announces.
pub fn read_data_file(file: &[u8]) -> (r: Option<(Vec<Vec<u64>>, Vec<Vec<u64>>)>)
    ensures
        match r {
            Some((a, b)) => paired_samples(file@) == Some((rows_of(a@), rows_of(b@))),
            None => paired_samples(file@) is None,
        },
{
    let mut a: Vec<Vec<u64>> = Vec::new();
    let mut b: Vec<Vec<u64>> = Vec::new();
    if file.len() < 4 {
        return None;
    }
    let subject_count: u32 = read_le_u32(file, 0);
    let mut at: usize = 4;
    let mut s: u32 = 0;
    assert(rows_of(a@) =~= Seq::<Seq<u64>>::empty());
    assert(rows_of(b@) =~= Seq::<Seq<u64>>::empty());
    while s < subject_count
        invariant
            0 <= s <= subject_count,
            at <= file@.len(),
            file@.len() >= 4,
            subject_count == le_u32(file@, 0),
            subjects(file@, s as nat) == Some((rows_of(a@), rows_of(b@), at as int)),
        decreases subject_count - s,
    {
        let ghost a_before = rows_of(a@);
        let ghost b_before = rows_of(b@);
        let ghost done = subject_count as nat;
        let (sa, middle) = match read_record(file, at) {
            Some(found) => found,
            None => {
                proof {
                    assert(subjects(file@, (s + 1) as nat) is None);
                    lemma_subjects_end(file@, (s + 1) as nat, subject_count as nat);
                }
                return None;
            },
        };
        let (sb, end) = match read_record(file, middle) {
            Some(found) => found,
            None => {
                proof {
                    assert(subjects(file@, (s + 1) as nat) is None);
                    lemma_subjects_end(file@, (s + 1) as nat, subject_count as nat);
                }
                return None;
            },
        };
        a.push(sa);
        b.push(sb);
        assert(rows_of(a@) =~= a_before.push(sa@));
        assert(rows_of(b@) =~= b_before.push(sb@));
        at = end;
        s += 1;
    }
    Some((a, b))
}

/// Once the records of some subjects cannot be read, those of more
/// subjects cannot either.
proof fn lemma_subjects_end(file: Seq<u8>, n: nat, m: nat)
    requires
        subjects(file, n) is None,
        n <= m,
    ensures
        subjects(file, m) is None,
    decreases m,
{
    if n < m {
        lemma_subjects_end(file, n, (m - 1) as nat);
    }
}

/// The bytes of a mask file: the number of nodes, least significant byte
/// first, then one byte for each node, 1 for a flagged node and 0 for
/// another.
pub open spec fn mask_bytes(mask: Seq<bool>) -> Seq<u8> {
    le_bytes(mask.len() as u32) + Seq::new(
        mask.len(),
        |i: int|
            if mask[i] {
                1u8
            } else {
                0u8
            },
    )
}

/// The bytes of the file that holds the significance mask.
pub fn write_mask_file(mask: &Vec<bool>) -> (out: Vec<u8>)
    requires
        mask.len() <= u32::MAX,
    ensures
        out@ == mask_bytes(mask@),
{
    let mut out: Vec<u8> = Vec::new();
    put_le_u32(&mut out, mask.len() as u32);
    let ghost head = out@;
    let mut i: usize = 0;
    while i < mask.len()
        invariant
            0 <= i <= mask.len(),
            head == le_bytes(mask.len() as u32),
            out@ == head + Seq::new(
                i as nat,
                |k: int|
                    if mask@[k] {
                        1u8
                    } else {
                        0u8
                    },
            ),
        decreases mask.len() - i,
    {
        out.push(
            if mask[i] {
                1
            } else {
                0
            },
        );
        assert(out@ =~= head + Seq::new(
            (i + 1) as nat,
            |k: int|
                if mask@[k] {
                    1u8
                } else {
                    0u8
                },
        ));
        i += 1;
    }
    out
}

} // verus!
