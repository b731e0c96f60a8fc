//! The source-estimate format: a time series of values on the vertices of
//! one hemisphere.

use vstd::prelude::*;

use crate::bytes::{be_bytes, be_u32, put_be_u32, read_be_u32};
use crate::fiff::{matrix_rows, read_rows, rows_of};

verus! {

/// A source estimate. Times and values are held as the 32 bits of their
/// floating-point numbers; `data` has one row for each time point.
pub struct Stc {
    pub time_min: u32,
    pub time_step: u32,
    pub vertex_count: usize,
    pub vertex_indices: Vec<u32>,
    pub time_count: usize,
    pub data: Vec<Vec<u32>>,
}

/// The mathematical value of an [`Stc`].
pub ghost struct Estimate {
    pub time_min: u32,
    pub time_step: u32,
    pub vertex_count: int,
    pub vertex_indices: Seq<u32>,
    pub time_count: int,
    pub data: Seq<Seq<u32>>,
}

impl View for Stc {
    type V = Estimate;

    open spec fn view(&self) -> Estimate {
        Estimate {
            time_min: self.time_min,
            time_step: self.time_step,
            vertex_count: self.vertex_count as int,
            vertex_indices: self.vertex_indices@,
            time_count: self.time_count as int,
            data: rows_of(self.data@),
        }
    }
}

/// The number of vertices that the file announces.
pub open spec fn announced_vertices(file: Seq<u8>) -> int {
    be_u32(file, 8) as int
}

/// The number of time points that the file announces.
pub open spec fn announced_times(file: Seq<u8>) -> int {
    be_u32(file, 12 + 4 * announced_vertices(file)) as int
}

/// The file holds all that it announces: the two times, the number of
/// vertices and their indices, the number of time points, and one value
/// for each vertex at each time point.
pub open spec fn is_complete(file: Seq<u8>) -> bool {
    &&& 12 <= file.len()
    &&& 16 + 4 * announced_vertices(file) <= file.len()
    &&& 16 + 4 * announced_vertices(file) + 4 * (announced_times(file) * announced_vertices(file))
        <= file.len()
}

/// The source estimate that a complete file holds.
pub open spec fn estimate_in(file: Seq<u8>) -> Estimate {
    let vertices = announced_vertices(file);
    let times = announced_times(file);
    Estimate {
        time_min: be_u32(file, 0),
        time_step: be_u32(file, 4),
        vertex_count: vertices,
        vertex_indices: Seq::new(vertices as nat, |k: int| be_u32(file, 12 + 4 * k)),
        time_count: times,
        data: matrix_rows(file, 16 + 4 * vertices, vertices, times),
    }
}

/// Reads a source estimate from the bytes of its file; `None` if the file
/// ends before the end of what it announces.
pub fn read(file: &[u8]) -> (r: Option<Stc>)
    ensures
        match r {
            Some(stc) => is_complete(file@) && stc@ == estimate_in(file@),
            None => !is_complete(file@),
        },
{
    let len: usize = file.len();
    if len < 12 {
        return None;
    }
    let time_min: u32 = read_be_u32(file, 0);
    let time_step: u32 = read_be_u32(file, 4);
    let announced: u32 = read_be_u32(file, 8);
    if (len - 12) / 4 < announced as usize || len - 12 - 4 * (announced as usize) < 4 {
        return None;
    }
    let vertex_count: usize = announced as usize;
    let mut vertex_indices: Vec<u32> = Vec::new();
    let mut k: usize = 0;
    while k < vertex_count
        invariant
            0 <= k <= vertex_count,
            len == file@.len(),
            16 + 4 * vertex_count <= len,
            vertex_indices@ == Seq::new(k as nat, |j: int| be_u32(file@, 12 + 4 * j)),
        decreases vertex_count - k,
    {
        vertex_indices.push(read_be_u32(file, 12 + 4 * k));
        assert(vertex_indices@ =~= Seq::new((k + 1) as nat, |j: int| be_u32(file@, 12 + 4 * j)));
        k += 1;
    }
    let times: u32 = read_be_u32(file, 12 + 4 * vertex_count);
    let start: usize = 16 + 4 * vertex_count;
    let room: usize = (len - start) / 4;
    assert(times as u64 * announced as u64 <= 0xffff_ffff_0000_0000) by (nonlinear_arith)
        requires
            0 <= times <= 0xffff_ffff,
            0 <= announced <= 0xffff_ffff,
    ;
    if times as u64 * announced as u64 > room as u64 {
        return None;
    }
    let time_count: usize = times as usize;
    let data = read_rows(file, start, vertex_count, time_count);
    Some(Stc { time_min, time_step, vertex_count, vertex_indices, time_count, data })
}

/// The rows of the two hemispheres side by side: for each of the first
/// `upto` time points the values of the left one, then those of the right
/// one.
pub open spec fn paired_rows(left: Seq<Seq<u32>>, right: Seq<Seq<u32>>, upto: int) -> Seq<u32>
    decreases upto,
{
    if upto <= 0 {
        Seq::empty()
    } else {
        paired_rows(left, right, upto - 1) + left[upto - 1] + right[upto - 1]
    }
}

/// The values of both hemispheres in one sequence: for each time point of
/// the left estimate its values, then those of the right one.
pub fn concat_pair(stc_lh: &Stc, stc_rh: &Stc) -> (data: Vec<u32>)
    requires
        stc_lh.time_count <= stc_lh.data.len(),
        stc_lh.time_count <= stc_rh.data.len(),
    ensures
        data@ == paired_rows(stc_lh@.data, stc_rh@.data, stc_lh@.time_count),
{
    let time_count: usize = stc_lh.time_count;
    let mut data: Vec<u32> = Vec::new();
    let mut t: usize = 0;
    while t < time_count
        invariant
            0 <= t <= time_count,
            time_count <= stc_lh.data.len(),
            time_count <= stc_rh.data.len(),
            data@ == paired_rows(stc_lh@.data, stc_rh@.data, t as int),
        decreases time_count - t,
    {
        let ghost before = data@;
        data.extend_from_slice(stc_lh.data[t].as_slice());
        data.extend_from_slice(stc_rh.data[t].as_slice());
        assert(data@ =~= before + stc_lh@.data[t as int] + stc_rh@.data[t as int]);
        t += 1;
    }
    data
}

/// The place in the mask of both hemispheres of vertex `i` at time point
/// `t`, the vertex counted over both hemispheres: at each time point the
/// vertices of the left hemisphere come first.
pub open spec fn mask_place(vertices: int, t: int, i: int) -> int {
    vertices * t + i
}

/// The part of the mask of both hemispheres that belongs to one
/// hemisphere: `count` vertices from vertex `first` on, at each of the
/// time points.
pub open spec fn hemisphere_mask(
    mask: Seq<bool>,
    vertices: int,
    first: int,
    count: int,
    time_count: int,
) -> Seq<Seq<bool>> {
    Seq::new(
        time_count as nat,
        |t: int| Seq::new(count as nat, |i: int| mask[mask_place(vertices, t, first + i)]),
    )
}

/// Takes from the mask of both hemispheres the part of one hemisphere.
fn mask_part(mask: &Vec<bool>, vertices: usize, first: usize, count: usize, time_count: usize) -> (part:
    Vec<Vec<bool>>)
    requires
        first + count <= vertices,
        vertices * time_count <= mask.len(),
    ensures
        rows_of(part@) == hemisphere_mask(
            mask@,
            vertices as int,
            first as int,
            count as int,
            time_count as int,
        ),
{
    let mut part: Vec<Vec<bool>> = Vec::new();
    let mut t: usize = 0;
    while t < time_count
        invariant
            0 <= t <= time_count,
            first + count <= vertices,
            vertices * time_count <= mask.len(),
            part@.len() == t,
            forall|u: int|
                0 <= u < t ==> (#[trigger] part@[u])@ == Seq::new(
                    count as nat,
                    |i: int| mask@[mask_place(vertices as int, u, first + i)],
                ),
        decreases time_count - t,
    {
        assert(vertices * t + vertices <= vertices * time_count) by (nonlinear_arith)
            requires
                0 <= t < time_count,
                0 <= vertices,
        ;
        assert(0 <= vertices * t) by (nonlinear_arith)
            requires
                0 <= t,
                0 <= vertices,
        ;
        let row_at: usize = vertices * t + first;
        let mut row: Vec<bool> = Vec::new();
        let mut i: usize = 0;
        while i < count
            invariant
                0 <= i <= count,
                row_at == vertices * t + first,
                row_at + count <= mask.len(),
                row@ == Seq::new(
                    i as nat,
                    |k: int| mask@[mask_place(vertices as int, t as int, first + k)],
                ),
            decreases count - i,
        {
            row.push(mask[row_at + i]);
            assert(row@ =~= Seq::new(
                (i + 1) as nat,
                |k: int| mask@[mask_place(vertices as int, t as int, first + k)],
            ));
            i += 1;
        }
        part.push(row);
        t += 1;
    }
    assert(rows_of(part@) =~= hemisphere_mask(
        mask@,
        vertices as int,
        first as int,
        count as int,
        time_count as int,
    ));
    part
}

/// Splits the mask of both hemispheres into the masks of the left and of
/// the right hemisphere, each with one row for each time point.
pub fn split_mask(
    mask: &Vec<bool>,
    lh_vertex_count: usize,
    rh_vertex_count: usize,
    time_count: usize,
) -> (parts: (Vec<Vec<bool>>, Vec<Vec<bool>>))
    requires
        (lh_vertex_count + rh_vertex_count) * time_count <= mask.len(),
    ensures
        rows_of(parts.0@) == hemisphere_mask(
            mask@,
            lh_vertex_count + rh_vertex_count,
            0,
            lh_vertex_count as int,
            time_count as int,
        ),
        rows_of(parts.1@) == hemisphere_mask(
            mask@,
            lh_vertex_count + rh_vertex_count,
            lh_vertex_count as int,
            rh_vertex_count as int,
            time_count as int,
        ),
{
    if time_count == 0 {
        let lh: Vec<Vec<bool>> = Vec::new();
        let rh: Vec<Vec<bool>> = Vec::new();
        assert(rows_of(lh@) =~= hemisphere_mask(
            mask@,
            lh_vertex_count + rh_vertex_count,
            0,
            lh_vertex_count as int,
            0,
        ));
        assert(rows_of(rh@) =~= hemisphere_mask(
            mask@,
            lh_vertex_count + rh_vertex_count,
            lh_vertex_count as int,
            rh_vertex_count as int,
            0,
        ));
        return (lh, rh);
    }
    assert(lh_vertex_count + rh_vertex_count <= (lh_vertex_count + rh_vertex_count) * time_count)
        by (nonlinear_arith)
        requires
            time_count >= 1,
    ;
    let vertices: usize = lh_vertex_count + rh_vertex_count;
    let lh = mask_part(mask, vertices, 0, lh_vertex_count, time_count);
    let rh = mask_part(mask, vertices, lh_vertex_count, rh_vertex_count, time_count);
    (lh, rh)
}

/// The bytes of the numbers, four for each, most significant byte first.
pub open spec fn words_bytes(words: Seq<u32>) -> Seq<u8>
    decreases words.len(),
{
    if words.len() == 0 {
        Seq::empty()
    } else {
        words_bytes(words.drop_last()) + be_bytes(words.last())
    }
}

/// The bytes of the rows, one row after the other.
pub open spec fn rows_bytes(rows: Seq<Seq<u32>>) -> Seq<u8>
    decreases rows.len(),
{
    if rows.len() == 0 {
        Seq::empty()
    } else {
        rows_bytes(rows.drop_last()) + words_bytes(rows.last())
    }
}

/// The low 32 bits of a count.
pub open spec fn low_word(n: int) -> u32 {
    let wide: u64 = n as u64;
    (wide % 0x1_0000_0000) as u32
}

/// The bytes of the file of a source estimate: the two times, the number
/// of vertices and their indices, the number of time points, and the
/// values row by row. Counts are written with their low 32 bits.
pub open spec fn file_of(stc: Estimate) -> Seq<u8> {
    be_bytes(stc.time_min) + be_bytes(stc.time_step) + be_bytes(low_word(stc.vertex_count))
        + words_bytes(stc.vertex_indices) + be_bytes(low_word(stc.time_count)) + rows_bytes(
        stc.data,
    )
}

/// Adds the bytes of the numbers to `out`.
fn put_words(out: &mut Vec<u8>, words: &Vec<u32>)
    ensures
        final(out)@ == old(out)@ + words_bytes(words@),
{
    let mut k: usize = 0;
    assert(words@.take(0) =~= Seq::<u32>::empty());
    assert(out@ =~= old(out)@ + words_bytes(words@.take(0)));
    while k < words.len()
        invariant
            0 <= k <= words.len(),
            out@ == old(out)@ + words_bytes(words@.take(k as int)),
        decreases words.len() - k,
    {
        let ghost before = out@;
        put_be_u32(out, words[k]);
        assert(words@.take(k + 1).drop_last() =~= words@.take(k as int));
        assert(out@ =~= old(out)@ + words_bytes(words@.take(k + 1)));
        k += 1;
    }
    assert(words@.take(k as int) =~= words@);
}

/// The low 32 bits of a count.
fn low_bits(n: usize) -> (r: u32)
    ensures
        r == low_word(n as int),
{
    let wide: u64 = n as u64;
    (wide % 0x1_0000_0000) as u32
}

/// The bytes of the file of a source estimate.
pub fn write(stc: &Stc) -> (out: Vec<u8>)
    ensures
        out@ == file_of(stc@),
{
    let mut out: Vec<u8> = Vec::new();
    put_be_u32(&mut out, stc.time_min);
    put_be_u32(&mut out, stc.time_step);
    put_be_u32(&mut out, low_bits(stc.vertex_count));
    put_words(&mut out, &stc.vertex_indices);
    put_be_u32(&mut out, low_bits(stc.time_count));
    let ghost head = out@;
    let mut t: usize = 0;
    assert(rows_of(stc.data@).take(0) =~= Seq::<Seq<u32>>::empty());
    assert(out@ =~= head + rows_bytes(rows_of(stc.data@).take(0)));
    while t < stc.data.len()
        invariant
            0 <= t <= stc.data.len(),
            out@ == head + rows_bytes(rows_of(stc.data@).take(t as int)),
        decreases stc.data.len() - t,
    {
        put_words(&mut out, &stc.data[t]);
        assert(rows_of(stc.data@).take(t + 1).drop_last() =~= rows_of(stc.data@).take(t as int));
        assert(rows_of(stc.data@).take(t + 1).last() == stc.data@[t as int]@);
        assert(out@ =~= head + rows_bytes(rows_of(stc.data@).take(t + 1)));
        t += 1;
    }
    assert(rows_of(stc.data@).take(t as int) =~= rows_of(stc.data@));
    assert(head =~= be_bytes(stc.time_min) + be_bytes(stc.time_step) + be_bytes(
        low_word(stc.vertex_count as int),
    ) + words_bytes(stc.vertex_indices@) + be_bytes(low_word(stc.time_count as int)));
    out
}

/// The counts of the estimate agree with what it holds, and fit into 32
/// bits.
pub open spec fn is_regular(stc: Estimate) -> bool {
    &&& 0 <= stc.vertex_count <= u32::MAX
    &&& 0 <= stc.time_count <= u32::MAX
    &&& stc.vertex_indices.len() == stc.vertex_count
    &&& stc.data.len() == stc.time_count
    &&& forall|t: int| 0 <= t < stc.data.len() ==> (#[trigger] stc.data[t]).len() == stc.vertex_count
}

/// The four bytes of a number spell the number.
pub proof fn lemma_be_bytes_spell(n: u32)
    ensures
        be_bytes(n).len() == 4,
        be_u32(be_bytes(n), 0) == n,
{
    let b = be_bytes(n);
    assert(b[0] == (n / 0x100_0000) as u8);
    assert(b[1] == (n / 0x1_0000 % 0x100) as u8);
    assert(b[2] == (n / 0x100 % 0x100) as u8);
    assert(b[3] == (n % 0x100) as u8);
}

/// A number is read from a byte string as it is read from the part of the
/// string that holds its four bytes.
pub proof fn lemma_be_u32_in_part(bytes: Seq<u8>, from: int, to: int, at: int)
    requires
        0 <= from <= at,
        at + 4 <= to <= bytes.len(),
    ensures
        be_u32(bytes, at) == be_u32(bytes.subrange(from, to), at - from),
{
    let part = bytes.subrange(from, to);
    assert(part[at - from] == bytes[at]);
    assert(part[at - from + 1] == bytes[at + 1]);
    assert(part[at - from + 2] == bytes[at + 2]);
    assert(part[at - from + 3] == bytes[at + 3]);
}

/// The bytes of numbers spell the numbers, four bytes each.
pub proof fn lemma_words_bytes(words: Seq<u32>, k: int)
    requires
        0 <= k < words.len(),
    ensures
        words_bytes(words).len() == 4 * words.len(),
        be_u32(words_bytes(words), 4 * k) == words[k],
    decreases words.len(),
{
    let head = words.drop_last();
    let all = words_bytes(words);
    let split = 4 * head.len() as int;
    lemma_words_len(words);
    lemma_words_len(head);
    lemma_be_bytes_spell(words.last());
    if k < head.len() {
        lemma_words_bytes(head, k);
        assert(all.subrange(0, split) =~= words_bytes(head));
        lemma_be_u32_in_part(all, 0, split, 4 * k);
    } else {
        assert(all.subrange(split, all.len() as int) =~= be_bytes(words.last()));
        lemma_be_u32_in_part(all, split, all.len() as int, 4 * k);
    }
}

/// Numbers take four bytes each.
pub proof fn lemma_words_len(words: Seq<u32>)
    ensures
        words_bytes(words).len() == 4 * words.len(),
    decreases words.len(),
{
    if words.len() > 0 {
        lemma_words_len(words.drop_last());
    }
}

/// Rows of equal length take four bytes for each of their numbers.
pub proof fn lemma_rows_len(rows: Seq<Seq<u32>>, columns: int)
    requires
        0 <= columns,
        forall|r: int| 0 <= r < rows.len() ==> (#[trigger] rows[r]).len() == columns,
    ensures
        rows_bytes(rows).len() == 4 * (rows.len() * columns),
    decreases rows.len(),
{
    if rows.len() > 0 {
        let head = rows.drop_last();
        assert forall|r: int| 0 <= r < head.len() implies (#[trigger] head[r]).len() == columns by {
            assert(head[r] == rows[r]);
        }
        lemma_rows_len(head, columns);
        lemma_words_len(rows.last());
        assert(rows[rows.len() - 1].len() == columns);
        assert(rows.len() * columns == head.len() * columns + columns) by (nonlinear_arith)
            requires
                rows.len() == head.len() + 1,
        ;
    } else {
        assert(rows.len() * columns == 0) by (nonlinear_arith)
            requires
                rows.len() == 0,
        ;
    }
}

/// The bytes of rows of equal length spell the numbers of the rows, row by
/// row.
pub proof fn lemma_rows_bytes(rows: Seq<Seq<u32>>, columns: int, r: int, c: int)
    requires
        forall|t: int| 0 <= t < rows.len() ==> (#[trigger] rows[t]).len() == columns,
        0 <= r < rows.len(),
        0 <= c < columns,
    ensures
        4 * (r * columns + c) + 4 <= rows_bytes(rows).len(),
        be_u32(rows_bytes(rows), 4 * (r * columns + c)) == rows[r][c],
    decreases rows.len(),
{
    let head = rows.drop_last();
    let all = rows_bytes(rows);
    assert forall|t: int| 0 <= t < head.len() implies (#[trigger] head[t]).len() == columns by {
        assert(head[t] == rows[t]);
    }
    lemma_rows_len(rows, columns);
    lemma_rows_len(head, columns);
    lemma_words_len(rows.last());
    assert(rows[rows.len() - 1].len() == columns);
    assert(r * columns + c < rows.len() * columns && 0 <= r * columns) by (nonlinear_arith)
        requires
            0 <= r < rows.len(),
            0 <= c < columns,
    ;
    let start = 4 * (head.len() as int * columns);
    if r < head.len() {
        lemma_rows_bytes(head, columns, r, c);
        assert(all.subrange(0, start) =~= rows_bytes(head));
        lemma_be_u32_in_part(all, 0, start, 4 * (r * columns + c));
        assert(head[r] == rows[r]);
    } else {
        assert(all.subrange(start, all.len() as int) =~= words_bytes(rows.last()));
        lemma_words_bytes(rows.last(), c);
        assert(r * columns == head.len() * columns);
        lemma_be_u32_in_part(all, start, all.len() as int, 4 * (r * columns + c));
    }
}

/// A number in the first part of a byte string is read as from that part.
pub proof fn lemma_be_u32_left(x: Seq<u8>, y: Seq<u8>, at: int)
    requires
        0 <= at,
        at + 4 <= x.len(),
    ensures
        be_u32(x + y, at) == be_u32(x, at),
{
    assert((x + y).subrange(0, x.len() as int) =~= x);
    lemma_be_u32_in_part(x + y, 0, x.len() as int, at);
}

/// A number in the second part of a byte string is read as from that part.
pub proof fn lemma_be_u32_right(x: Seq<u8>, y: Seq<u8>, at: int)
    requires
        0 <= at,
        at + 4 <= y.len(),
    ensures
        be_u32(x + y, x.len() + at) == be_u32(y, at),
{
    let all = x + y;
    assert(all.subrange(x.len() as int, all.len() as int) =~= y);
    lemma_be_u32_in_part(all, x.len() as int, all.len() as int, x.len() + at);
}

/// The head of the file of an estimate: the two times and the number of
/// vertices.
pub open spec fn file_head(stc: Estimate) -> Seq<u8> {
    be_bytes(stc.time_min) + be_bytes(stc.time_step) + be_bytes(low_word(stc.vertex_count))
}

/// The file of an estimate up to the number of time points.
pub open spec fn file_front(stc: Estimate) -> Seq<u8> {
    file_head(stc) + words_bytes(stc.vertex_indices) + be_bytes(low_word(stc.time_count))
}

/// The file of a regular estimate gives back the two times and the number
/// of vertices.
proof fn lemma_head_read(stc: Estimate, rest: Seq<u8>)
    requires
        is_regular(stc),
    ensures
        file_head(stc).len() == 12,
        be_u32(file_head(stc) + rest, 0) == stc.time_min,
        be_u32(file_head(stc) + rest, 4) == stc.time_step,
        be_u32(file_head(stc) + rest, 8) == stc.vertex_count,
{
    let a = be_bytes(stc.time_min);
    let b = be_bytes(stc.time_step);
    let c = be_bytes(low_word(stc.vertex_count));
    lemma_be_bytes_spell(stc.time_min);
    lemma_be_bytes_spell(stc.time_step);
    lemma_be_bytes_spell(low_word(stc.vertex_count));
    assert(low_word(stc.vertex_count) == stc.vertex_count);
    let head = file_head(stc);
    lemma_be_u32_left(a, b, 0);
    lemma_be_u32_left(a + b, c, 0);
    lemma_be_u32_right(a, b, 0);
    lemma_be_u32_left(a + b, c, 4);
    lemma_be_u32_right(a + b, c, 0);
    lemma_be_u32_left(head, rest, 0);
    lemma_be_u32_left(head, rest, 4);
    lemma_be_u32_left(head, rest, 8);
}

/// The file of a regular estimate gives back the indices of the vertices
/// and the number of time points.
proof fn lemma_front_read(stc: Estimate, rest: Seq<u8>, k: int)
    requires
        is_regular(stc),
        0 <= k < stc.vertex_count,
    ensures
        be_u32(file_front(stc) + rest, 12 + 4 * k) == stc.vertex_indices[k],
{
    let head = file_head(stc);
    let d = words_bytes(stc.vertex_indices);
    let e = be_bytes(low_word(stc.time_count));
    lemma_head_read(stc, rest);
    lemma_words_bytes(stc.vertex_indices, k);
    lemma_be_u32_right(head, d, 4 * k);
    lemma_be_u32_left(head + d, e, 12 + 4 * k);
    lemma_be_u32_left(file_front(stc), rest, 12 + 4 * k);
}

/// The file of a regular estimate gives back the number of time points.
proof fn lemma_times_read(stc: Estimate, rest: Seq<u8>)
    requires
        is_regular(stc),
    ensures
        file_front(stc).len() == 16 + 4 * stc.vertex_count,
        be_u32(file_front(stc) + rest, 12 + 4 * stc.vertex_count) == stc.time_count,
{
    let head = file_head(stc);
    let d = words_bytes(stc.vertex_indices);
    let e = be_bytes(low_word(stc.time_count));
    lemma_head_read(stc, rest);
    lemma_words_len(stc.vertex_indices);
    lemma_be_bytes_spell(low_word(stc.time_count));
    assert(low_word(stc.time_count) == stc.time_count);
    lemma_be_u32_right(head + d, e, 0);
    lemma_be_u32_left(file_front(stc), rest, 12 + 4 * stc.vertex_count);
}

/// The file of a regular estimate gives back the values.
proof fn lemma_data_read(stc: Estimate, r: int, k: int)
    requires
        is_regular(stc),
        0 <= r < stc.time_count,
        0 <= k < stc.vertex_count,
    ensures
        be_u32(
            file_front(stc) + rows_bytes(stc.data),
            16 + 4 * stc.vertex_count + 4 * (r * stc.vertex_count + k),
        ) == stc.data[r][k],
{
    lemma_times_read(stc, rows_bytes(stc.data));
    lemma_rows_bytes(stc.data, stc.vertex_count, r, k);
    assert(0 <= r * stc.vertex_count) by (nonlinear_arith)
        requires
            0 <= r,
            0 <= stc.vertex_count,
    ;
    lemma_be_u32_right(file_front(stc), rows_bytes(stc.data), 4 * (r * stc.vertex_count + k));
}

/// Writing and reading agree: the file of a regular estimate is complete,
/// and holds the estimate.
pub proof fn lemma_read_what_was_written(stc: Estimate)
    requires
        is_regular(stc),
    ensures
        is_complete(file_of(stc)),
        estimate_in(file_of(stc)) == stc,
{
    let vertices = stc.vertex_count;
    let times = stc.time_count;
    let rows = rows_bytes(stc.data);
    let file = file_of(stc);
    assert(file == file_front(stc) + rows);
    assert(file_front(stc) == file_head(stc) + (words_bytes(stc.vertex_indices) + be_bytes(
        low_word(times),
    ))) by {
        assert(file_front(stc) =~= file_head(stc) + (words_bytes(stc.vertex_indices) + be_bytes(
            low_word(times),
        )));
    }
    lemma_head_read(stc, words_bytes(stc.vertex_indices) + be_bytes(low_word(times)));
    lemma_be_u32_left(file_front(stc), rows, 0);
    lemma_be_u32_left(file_front(stc), rows, 4);
    lemma_be_u32_left(file_front(stc), rows, 8);
    lemma_times_read(stc, rows);
    lemma_rows_len(stc.data, vertices);
    assert(announced_vertices(file) == vertices);
    assert(announced_times(file) == times);
    let read = estimate_in(file);
    assert(read.vertex_indices =~= stc.vertex_indices) by {
        assert forall|k: int| 0 <= k < vertices implies be_u32(file, 12 + 4 * k)
            == stc.vertex_indices[k] by {
            lemma_front_read(stc, rows, k);
        }
    }
    assert(read.data =~= stc.data) by {
        assert forall|r: int| 0 <= r < times implies #[trigger] read.data[r] =~= stc.data[r] by {
            assert(stc.data[r].len() == vertices);
            assert forall|k: int| 0 <= k < vertices implies read.data[r][k] == stc.data[r][k] by {
                lemma_data_read(stc, r, k);
            }
        }
    }
}

} // verus!
