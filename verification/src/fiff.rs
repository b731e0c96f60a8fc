//! The tagged binary tree format: tags, the directory tree, and search in it.

use vstd::prelude::*;

use crate::bytes::{be_u32, read_be_i32, read_be_u32, signed, unsigned};

verus! {

/// The kind of the tag that identifies the file.
pub const KIND_FILE_ID: u32 = 100;

/// The kind of the tag that points to the directory.
pub const KIND_DIR_POINTER: u32 = 101;

/// The kind of the tag that starts a block.
pub const KIND_BLOCK_START: u32 = 104;

/// The kind of the tag that ends a block.
pub const KIND_BLOCK_END: u32 = 105;

/// The type of a tag that holds a signed 32-bit number.
pub const TYPE_INT: u32 = 3;

/// The type of a tag that holds a 32-bit floating-point number.
pub const TYPE_FLOAT: u32 = 4;

/// The type of a tag that holds text.
pub const TYPE_STRING: u32 = 10;

/// The type of the tag that identifies the file.
pub const TYPE_ID_STRUCT: u32 = 31;

/// The type of a tag that holds directory entries.
pub const TYPE_DIR_ENTRY_STRUCT: u32 = 32;

/// The type of a block that describes a source space.
pub const BLOCK_MNE_SOURCE_SPACE: u32 = 351;

/// The kind of the tag that holds the number of vertices in use.
pub const KIND_MNE_SOURCE_SPACE_USED_VERTEX_COUNT: u32 = 3514;

/// The kind of the tag that holds the triangles in use.
pub const KIND_MNE_SOURCE_SPACE_USED_TRIANGLES: u32 = 3593;

/// A block of the directory: its type, its own tags and its nested blocks.
#[derive(Debug)]
pub struct Tree {
    pub block_type: u32,
    pub tags: Vec<Tag>,
    pub children: Vec<Tree>,
}

impl Clone for Tree {
    fn clone(&self) -> (copy: Tree)
        ensures
            copy@ == self@,
        decreases self,
    {
        let mut tags: Vec<Tag> = Vec::new();
        let mut i: usize = 0;
        while i < self.tags.len()
            invariant
                0 <= i <= self.tags.len(),
                tags@ == self.tags@.take(i as int),
            decreases self.tags.len() - i,
        {
            tags.push(self.tags[i]);
            assert(self.tags@.take(i + 1) =~= self.tags@.take(i as int).push(self.tags@[i as int]));
            i += 1;
        }
        assert(self.tags@.take(i as int) =~= self.tags@);
        let mut children: Vec<Tree> = Vec::new();
        let mut k: usize = 0;
        while k < self.children.len()
            invariant
                0 <= k <= self.children.len(),
                children@.len() == k,
                forall|j: int| 0 <= j < k ==> (#[trigger] children@[j])@ == self.children@[j]@,
            decreases self.children.len() - k,
        {
            children.push(self.children[k].clone());
            k += 1;
        }
        let copy = Tree { block_type: self.block_type, tags, children };
        assert(copy@.children =~= self@.children);
        copy
    }
}

/// The header of one tag: what it is, how its data is coded, how many bytes
/// of data it has and where in the file the tag starts.
#[derive(Debug, Clone, Copy, PartialEq, Eq, Structural)]
pub struct Tag {
    pub kind: u32,
    pub tag_type: u32,
    pub size: u32,
    pub pos: u32,
}

/// The data of a tag. Floating-point data is held as its 32 bits, text as
/// its bytes.
#[derive(Debug, Clone)]
pub enum TagData {
    Int(i32),
    Float(u32),
    String(Vec<u8>),
    ArrayInt(Vec<Vec<i32>>),
    ArrayFloat(Vec<Vec<u32>>),
    DirEntryStruct(Vec<Tag>),
}

/// The rows of a matrix, each as a sequence.
pub open spec fn rows_of<T>(rows: Seq<Vec<T>>) -> Seq<Seq<T>> {
    Seq::new(rows.len(), |r: int| rows[r]@)
}

/// The mathematical value of a [`TagData`].
pub ghost enum TagContent {
    Int(i32),
    Float(u32),
    String(Seq<u8>),
    ArrayInt(Seq<Seq<i32>>),
    ArrayFloat(Seq<Seq<u32>>),
    DirEntryStruct(Seq<Tag>),
}

impl View for TagData {
    type V = TagContent;

    open spec fn view(&self) -> TagContent {
        match self {
            TagData::Int(n) => TagContent::Int(*n),
            TagData::Float(bits) => TagContent::Float(*bits),
            TagData::String(text) => TagContent::String(text@),
            TagData::ArrayInt(rows) => TagContent::ArrayInt(rows_of(rows@)),
            TagData::ArrayFloat(rows) => TagContent::ArrayFloat(rows_of(rows@)),
            TagData::DirEntryStruct(entries) => TagContent::DirEntryStruct(entries@),
        }
    }
}

/// Why a file cannot be read.
#[derive(Debug, Clone, Copy, PartialEq, Eq, Structural)]
pub enum FiffError {
    /// The file ends before the data that a tag announces.
    ShortRead,
    /// The size of a tag does not fit what it holds.
    SizeMismatch,
    /// A matrix has other than two dimensions.
    MatrixDimensions,
    /// A matrix holds neither integers nor floating-point numbers.
    MatrixType,
    /// A matrix is not densely coded.
    MatrixCoding,
    /// The type of a tag is not one that can be read.
    TagType,
    /// A tag is not of the kind or type that its place in the file asks for.
    Layout,
}

/// The header that stands at `pos`.
pub open spec fn tag_at(file: Seq<u8>, pos: int) -> Tag {
    Tag {
        kind: be_u32(file, pos),
        tag_type: be_u32(file, pos + 4),
        size: be_u32(file, pos + 8),
        pos: pos as u32,
    }
}

/// The position that a reader is at after the header at `pos`: where the
/// header points to, if it points anywhere; behind the data of the tag that
/// identifies the file, if that tag points nowhere; else behind the header.
pub open spec fn position_after(file: Seq<u8>, pos: int) -> int {
    let tag = tag_at(file, pos);
    let next = signed(be_u32(file, pos + 12));
    if next > 0 {
        next as int
    } else if tag.kind == KIND_FILE_ID && tag.tag_type == TYPE_ID_STRUCT && next == 0 {
        pos + 16 + tag.size
    } else {
        pos + 16
    }
}

/// Reads the header of the tag at `pos`, and says where a reader is after
/// it. Fails if the file ends before the end of the header.
pub fn read_tag(file: &[u8], pos: u32) -> (r: Result<(Tag, u64), FiffError>)
    ensures
        match r {
            Ok((tag, after)) => {
                &&& pos + 16 <= file@.len()
                &&& tag == tag_at(file@, pos as int)
                &&& after == position_after(file@, pos as int)
            },
            Err(e) => pos + 16 > file@.len() && e == FiffError::ShortRead,
        },
{
    if pos as u64 + 16 > file.len() as u64 {
        return Err(FiffError::ShortRead);
    }
    let at: usize = pos as usize;
    let tag = Tag {
        kind: read_be_u32(file, at),
        tag_type: read_be_u32(file, at + 4),
        size: read_be_u32(file, at + 8),
        pos,
    };
    let next: i32 = read_be_i32(file, at + 12);
    let mut after: u64 = pos as u64 + 16;
    if tag.kind == KIND_FILE_ID && tag.tag_type == TYPE_ID_STRUCT {
        if next == 0 {
            after = after + tag.size as u64;
        }
    }
    if next > 0 {
        after = next as u64;
    }
    Ok((tag, after))
}

/// The coding of a matrix tag: the upper half of the tag's type.
pub open spec fn matrix_coding(tag_type: u32) -> u32 {
    tag_type / 0x1_0000
}

/// The type of the entries of a matrix tag: the lower half of the tag's
/// type.
pub open spec fn matrix_type(tag_type: u32) -> u32 {
    tag_type % 0x1_0000
}

/// The rows of a dense matrix of `rows` rows and `columns` columns whose
/// entries, four bytes each, stand row by row from `start` on.
pub open spec fn matrix_rows(file: Seq<u8>, start: int, columns: int, rows: int) -> Seq<Seq<u32>> {
    Seq::new(
        rows as nat,
        |r: int| Seq::new(columns as nat, |c: int| be_u32(file, start + 4 * (r * columns + c))),
    )
}

/// The same matrix with its entries read as signed numbers.
pub open spec fn signed_rows(rows: Seq<Seq<u32>>) -> Seq<Seq<i32>> {
    Seq::new(rows.len(), |r: int| Seq::new(rows[r].len(), |c: int| signed(rows[r][c])))
}

/// The directory entries, sixteen bytes each, that stand from `start` on.
pub open spec fn dir_entries(file: Seq<u8>, start: int, count: int) -> Seq<Tag> {
    Seq::new(
        count as nat,
        |k: int|
            Tag {
                kind: be_u32(file, start + 16 * k),
                tag_type: be_u32(file, start + 16 * k + 4),
                size: be_u32(file, start + 16 * k + 8),
                pos: be_u32(file, start + 16 * k + 12),
            },
    )
}

/// The data of a dense matrix tag whose data stands from `start` on. The
/// last four bytes of the data give the number of dimensions, the eight
/// bytes before them the number of columns and the number of rows.
pub open spec fn matrix_data(file: Seq<u8>, tag: Tag, start: int) -> Result<TagContent, FiffError> {
    let end = start + tag.size;
    let columns = signed(be_u32(file, end - 12));
    let rows = signed(be_u32(file, end - 8));
    if matrix_coding(tag.tag_type) != 0x4000 {
        Err(FiffError::MatrixCoding)
    } else if tag.size < 12 {
        Err(FiffError::SizeMismatch)
    } else if end > file.len() {
        Err(FiffError::ShortRead)
    } else if signed(be_u32(file, end - 4)) != 2 {
        Err(FiffError::MatrixDimensions)
    } else if columns < 0 || rows < 0 {
        Err(FiffError::SizeMismatch)
    } else if matrix_type(tag.tag_type) != TYPE_INT && matrix_type(tag.tag_type) != TYPE_FLOAT {
        Err(FiffError::MatrixType)
    } else if 4 * (rows * columns) > tag.size - 12 {
        Err(FiffError::SizeMismatch)
    } else if matrix_type(tag.tag_type) == TYPE_INT {
        Ok(TagContent::ArrayInt(signed_rows(matrix_rows(file, start, columns as int, rows as int))))
    } else {
        Ok(TagContent::ArrayFloat(matrix_rows(file, start, columns as int, rows as int)))
    }
}

/// The data of the tag `tag` in `file`: what `read_tag_data` returns.
pub open spec fn tag_data(file: Seq<u8>, tag: Tag) -> Result<TagContent, FiffError> {
    let start = tag.pos + 16;
    if matrix_coding(tag.tag_type) > 0 {
        matrix_data(file, tag, start)
    } else if tag.tag_type == TYPE_INT {
        if start + 4 > file.len() {
            Err(FiffError::ShortRead)
        } else {
            Ok(TagContent::Int(signed(be_u32(file, start))))
        }
    } else if tag.tag_type == TYPE_FLOAT {
        if start + 4 > file.len() {
            Err(FiffError::ShortRead)
        } else {
            Ok(TagContent::Float(be_u32(file, start)))
        }
    } else if tag.tag_type == TYPE_STRING {
        if start + tag.size > file.len() {
            Err(FiffError::ShortRead)
        } else {
            Ok(TagContent::String(file.subrange(start, start + tag.size)))
        }
    } else if tag.tag_type == TYPE_DIR_ENTRY_STRUCT {
        if start + 16 * (tag.size / 16) > file.len() {
            Err(FiffError::ShortRead)
        } else {
            Ok(TagContent::DirEntryStruct(dir_entries(file, start, tag.size as int / 16)))
        }
    } else {
        Err(FiffError::TagType)
    }
}

/// Reads a dense matrix of four-byte entries.
pub(crate) fn read_rows(file: &[u8], start: usize, columns: usize, rows: usize) -> (data: Vec<Vec<u32>>)
    requires
        start + 4 * (rows * columns) <= file@.len(),
    ensures
        rows_of(data@) == matrix_rows(file@, start as int, columns as int, rows as int),
{
    let mut data: Vec<Vec<u32>> = Vec::new();
    let mut r: usize = 0;
    let len: usize = file.len();
    while r < rows
        invariant
            0 <= r <= rows,
            len == file@.len(),
            start + 4 * (rows * columns) <= file@.len(),
            data@.len() == r,
            forall|a: int|
                0 <= a < r ==> (#[trigger] data@[a])@ == Seq::new(
                    columns as nat,
                    |c: int| be_u32(file@, start + 4 * (a * columns + c)),
                ),
        decreases rows - r,
    {
        let mut row: Vec<u32> = Vec::new();
        let mut c: usize = 0;
        while c < columns
            invariant
                0 <= c <= columns,
                0 <= r < rows,
                len == file@.len(),
                start + 4 * (rows * columns) <= file@.len(),
                row@ == Seq::new(c as nat, |k: int| be_u32(file@, start + 4 * (r * columns + k))),
            decreases columns - c,
        {
            assert(r * columns + c < rows * columns) by (nonlinear_arith)
                requires
                    0 <= r < rows,
                    0 <= c < columns,
            ;
            assert(0 <= r * columns) by (nonlinear_arith)
                requires
                    0 <= r,
                    0 <= columns,
            ;
            let at: usize = start + 4 * (r * columns + c);
            row.push(read_be_u32(file, at));
            assert(row@ =~= Seq::new(
                (c + 1) as nat,
                |k: int| be_u32(file@, start + 4 * (r * columns + k)),
            ));
            c += 1;
        }
        data.push(row);
        r += 1;
    }
    assert(rows_of(data@) =~= matrix_rows(file@, start as int, columns as int, rows as int));
    data
}

/// The same matrix with its entries taken as signed numbers.
fn rows_as_signed(bits: Vec<Vec<u32>>) -> (data: Vec<Vec<i32>>)
    ensures
        rows_of(data@) == signed_rows(rows_of(bits@)),
{
    let mut data: Vec<Vec<i32>> = Vec::new();
    let mut r: usize = 0;
    while r < bits.len()
        invariant
            0 <= r <= bits.len(),
            data@.len() == r,
            forall|a: int|
                0 <= a < r ==> (#[trigger] data@[a])@ == Seq::new(
                    bits@[a]@.len(),
                    |c: int| signed(bits@[a]@[c]),
                ),
        decreases bits.len() - r,
    {
        let source = &bits[r];
        let mut row: Vec<i32> = Vec::new();
        let mut c: usize = 0;
        while c < source.len()
            invariant
                0 <= c <= source.len(),
                row@ == Seq::new(c as nat, |k: int| signed(source@[k])),
            decreases source.len() - c,
        {
            row.push(to_signed(source[c]));
            assert(row@ =~= Seq::new((c + 1) as nat, |k: int| signed(source@[k])));
            c += 1;
        }
        data.push(row);
        r += 1;
    }
    assert(rows_of(data@) =~= signed_rows(rows_of(bits@)));
    data
}

/// The signed number with the same 32 bits.
fn to_signed(n: u32) -> (r: i32)
    ensures
        r == signed(n),
{
    if n < 0x8000_0000 {
        n as i32
    } else {
        ((n - 0x8000_0000) as i32) - 0x4000_0000 - 0x4000_0000
    }
}

/// Reads the data of a dense matrix tag whose data stands from `start` on.
fn read_matrix(file: &[u8], tag: &Tag, start: u64) -> (r: Result<TagData, FiffError>)
    requires
        start == tag.pos + 16,
    ensures
        match r {
            Ok(data) => matrix_data(file@, *tag, start as int) == Ok::<TagContent, FiffError>(data@),
            Err(e) => matrix_data(file@, *tag, start as int) == Err::<TagContent, FiffError>(e),
        },
{
    let tag_type: u32 = tag.tag_type;
    let coding: u32 = (tag_type & 0xffff0000) >> 16;
    let entry_type: u32 = tag_type & 0xffff;
    assert(coding == tag_type / 0x1_0000 && entry_type == tag_type % 0x1_0000) by (bit_vector)
        requires
            coding == (tag_type & 0xffff0000) >> 16,
            entry_type == tag_type & 0xffff,
    ;
    if coding != 0x4000 {
        return Err(FiffError::MatrixCoding);
    }
    if tag.size < 12 {
        return Err(FiffError::SizeMismatch);
    }
    let end: u64 = start + tag.size as u64;
    if end > file.len() as u64 {
        return Err(FiffError::ShortRead);
    }
    let end_at: usize = end as usize;
    let ndim: i32 = read_be_i32(file, end_at - 4);
    if ndim != 2 {
        return Err(FiffError::MatrixDimensions);
    }
    let columns: i32 = read_be_i32(file, end_at - 12);
    let rows: i32 = read_be_i32(file, end_at - 8);
    if columns < 0 || rows < 0 {
        return Err(FiffError::SizeMismatch);
    }
    if entry_type != TYPE_INT && entry_type != TYPE_FLOAT {
        return Err(FiffError::MatrixType);
    }
    assert(rows as u64 * columns as u64 <= 0x4000_0000_0000_0000) by (nonlinear_arith)
        requires
            0 <= rows <= 0x7fff_ffff,
            0 <= columns <= 0x7fff_ffff,
    ;
    let entries: u64 = rows as u64 * columns as u64;
    if entries > ((tag.size - 12) / 4) as u64 {
        return Err(FiffError::SizeMismatch);
    }
    let bits = read_rows(file, start as usize, columns as usize, rows as usize);
    if entry_type == TYPE_INT {
        Ok(TagData::ArrayInt(rows_as_signed(bits)))
    } else {
        Ok(TagData::ArrayFloat(bits))
    }
}

/// Reads the data of the tag `tag`: a number, a text, a dense matrix of two
/// dimensions or a list of directory entries, by the type of the tag.
pub fn read_tag_data(file: &[u8], tag: &Tag) -> (r: Result<TagData, FiffError>)
    ensures
        match r {
            Ok(data) => tag_data(file@, *tag) == Ok::<TagContent, FiffError>(data@),
            Err(e) => tag_data(file@, *tag) == Err::<TagContent, FiffError>(e),
        },
{
    let start: u64 = tag.pos as u64 + 16;
    let tag_type: u32 = tag.tag_type;
    let coding: u32 = (tag_type & 0xffff0000) >> 16;
    assert(coding == tag_type / 0x1_0000) by (bit_vector)
        requires
            coding == (tag_type & 0xffff0000) >> 16,
    ;
    if coding > 0 {
        return read_matrix(file, tag, start);
    }
    let file_len: usize = file.len();
    let len: u64 = file_len as u64;
    if tag_type == TYPE_INT {
        if start + 4 > len {
            return Err(FiffError::ShortRead);
        }
        Ok(TagData::Int(read_be_i32(file, start as usize)))
    } else if tag_type == TYPE_FLOAT {
        if start + 4 > len {
            return Err(FiffError::ShortRead);
        }
        Ok(TagData::Float(read_be_u32(file, start as usize)))
    } else if tag_type == TYPE_STRING {
        if start + tag.size as u64 > len {
            return Err(FiffError::ShortRead);
        }
        let from: usize = start as usize;
        let mut bytes: Vec<u8> = Vec::new();
        let mut k: usize = 0;
        while k < tag.size as usize
            invariant
                0 <= k <= tag.size,
                file_len == file@.len(),
                from + tag.size <= file@.len(),
                bytes@ == file@.subrange(from as int, from + k),
            decreases tag.size - k,
        {
            bytes.push(file[from + k]);
            assert(bytes@ =~= file@.subrange(from as int, from + k + 1));
            k += 1;
        }
        Ok(TagData::String(bytes))
    } else if tag_type == TYPE_DIR_ENTRY_STRUCT {
        let count: u32 = tag.size / 16;
        if start + 16 * (count as u64) > len {
            return Err(FiffError::ShortRead);
        }
        let from: usize = start as usize;
        let mut entries: Vec<Tag> = Vec::new();
        let mut k: usize = 0;
        while k < count as usize
            invariant
                0 <= k <= count,
                file_len == file@.len(),
                from + 16 * count <= file@.len(),
                entries@ == dir_entries(file@, from as int, k as int),
            decreases count - k,
        {
            let at: usize = from + 16 * k;
            entries.push(
                Tag {
                    kind: read_be_u32(file, at),
                    tag_type: read_be_u32(file, at + 4),
                    size: read_be_u32(file, at + 8),
                    pos: read_be_u32(file, at + 12),
                },
            );
            assert(entries@ =~= dir_entries(file@, from as int, k + 1));
            k += 1;
        }
        Ok(TagData::DirEntryStruct(entries))
    } else {
        Err(FiffError::TagType)
    }
}

/// The mathematical value of a [`Tree`].
pub ghost struct Block {
    pub block_type: u32,
    pub tags: Seq<Tag>,
    pub children: Seq<Block>,
}

impl Tree {
    /// The block that this tree stands for.
    pub open spec fn content(&self) -> Block
        decreases self,
    {
        Block {
            block_type: self.block_type,
            tags: self.tags@,
            children: Seq::new(
                self.children@.len(),
                |i: int|
                    if 0 <= i < self.children@.len() {
                        self.children@[i].content()
                    } else {
                        arbitrary()
                    },
            ),
        }
    }
}

impl View for Tree {
    type V = Block;

    open spec fn view(&self) -> Block {
        self.content()
    }
}

/// The topmost blocks of type `block_type` in `block`, in the order of the
/// directory: `block` itself if it is one, else those of its children.
pub open spec fn blocks_of(block: Block, block_type: u32) -> Seq<Block>
    decreases block, block.children.len() + 1,
{
    if block.block_type == block_type {
        seq![block]
    } else {
        blocks_among(block, block_type, block.children.len())
    }
}

/// The topmost blocks of type `block_type` in the first `n` children of
/// `block`.
pub open spec fn blocks_among(block: Block, block_type: u32, n: nat) -> Seq<Block>
    decreases block, n,
{
    if n == 0 || n > block.children.len() {
        Seq::empty()
    } else {
        blocks_among(block, block_type, (n - 1) as nat) + blocks_of(
            block.children[n - 1],
            block_type,
        )
    }
}

/// The blocks that the trees stand for.
pub open spec fn contents(trees: Seq<&Tree>) -> Seq<Block> {
    Seq::new(trees.len(), |k: int| trees[k]@)
}

/// The topmost blocks of type `block_type` in `tree`, in the order of the
/// directory.
pub fn find_blocks<'a>(tree: &'a Tree, block_type: u32) -> (matching_blocks: Vec<&'a Tree>)
    ensures
        contents(matching_blocks@) == blocks_of(tree@, block_type),
    decreases tree,
{
    let mut matching_blocks: Vec<&Tree> = Vec::new();
    if tree.block_type == block_type {
        matching_blocks.push(tree);
        assert(contents(matching_blocks@) =~= seq![tree@]);
    } else {
        let mut i: usize = 0;
        assert(contents(matching_blocks@) =~= Seq::<Block>::empty());
        while i < tree.children.len()
            invariant
                0 <= i <= tree.children.len(),
                tree.block_type != block_type,
                contents(matching_blocks@) == blocks_among(tree@, block_type, i as nat),
            decreases tree.children.len() - i,
        {
            let ghost before = matching_blocks@;
            let mut found = find_blocks(&tree.children[i], block_type);
            let ghost added = found@;
            matching_blocks.append(&mut found);
            assert(tree@.children[i as int] == tree.children@[i as int]@);
            assert(contents(matching_blocks@) =~= contents(before) + contents(added));
            i += 1;
        }
    }
    matching_blocks
}

/// The first tag of kind `kind` among `tags`.
pub open spec fn own_tag(tags: Seq<Tag>, kind: u32) -> Option<Tag>
    decreases tags.len(),
{
    if tags.len() == 0 {
        None
    } else if tags[0].kind == kind {
        Some(tags[0])
    } else {
        own_tag(tags.drop_first(), kind)
    }
}

/// The first tag of kind `kind` in `block`: among its own tags, else in
/// its children, in the order of the directory.
pub open spec fn tag_of_kind(block: Block, kind: u32) -> Option<Tag>
    decreases block, block.children.len() + 1,
{
    match own_tag(block.tags, kind) {
        Some(tag) => Some(tag),
        None => tag_among(block, kind, 0),
    }
}

/// The first tag of kind `kind` in the children of `block` from the child
/// `from` on.
pub open spec fn tag_among(block: Block, kind: u32, from: nat) -> Option<Tag>
    decreases block, block.children.len() - from,
{
    if from >= block.children.len() {
        None
    } else {
        match tag_of_kind(block.children[from as int], kind) {
            Some(tag) => Some(tag),
            None => tag_among(block, kind, from + 1),
        }
    }
}

/// What holds of the result of reading the tag `tag`.
pub open spec fn is_data_of(file: Seq<u8>, tag: Tag, r: Result<Option<TagData>, FiffError>) -> bool {
    match r {
        Ok(Some(data)) => tag_data(file, tag) == Ok::<TagContent, FiffError>(data@),
        Ok(None) => false,
        Err(e) => tag_data(file, tag) == Err::<TagContent, FiffError>(e),
    }
}

/// Reads the data of the first tag of kind `kind` in `tree`: among its own
/// tags, else in its children, in the order of the directory. `None` if
/// there is no such tag.
pub fn find_and_read_tag(file: &[u8], tree: &Tree, kind: u32) -> (r: Result<
    Option<TagData>,
    FiffError,
>)
    ensures
        match tag_of_kind(tree@, kind) {
            Some(tag) => is_data_of(file@, tag, r),
            None => r matches Ok(None),
        },
    decreases tree,
{
    let mut i: usize = 0;
    assert(tree.tags@.skip(0) =~= tree.tags@);
    while i < tree.tags.len()
        invariant
            0 <= i <= tree.tags.len(),
            own_tag(tree.tags@, kind) == own_tag(tree.tags@.skip(i as int), kind),
        decreases tree.tags.len() - i,
    {
        let tag = tree.tags[i];
        assert(tree.tags@.skip(i as int)[0] == tag);
        if tag.kind == kind {
            return match read_tag_data(file, &tag) {
                Ok(data) => Ok(Some(data)),
                Err(e) => Err(e),
            };
        }
        assert(tree.tags@.skip(i as int).drop_first() =~= tree.tags@.skip(i + 1));
        i += 1;
    }
    assert(own_tag(tree.tags@, kind) is None);
    let mut c: usize = 0;
    while c < tree.children.len()
        invariant
            0 <= c <= tree.children.len(),
            own_tag(tree.tags@, kind) is None,
            tag_of_kind(tree@, kind) == tag_among(tree@, kind, c as nat),
        decreases tree.children.len() - c,
    {
        assert(tree@.children[c as int] == tree.children@[c as int]@);
        match find_and_read_tag(file, &tree.children[c], kind) {
            Ok(Some(data)) => {
                return Ok(Some(data));
            },
            Ok(None) => {},
            Err(e) => {
                return Err(e);
            },
        }
        c += 1;
    }
    Ok(None)
}

/// A block that has only its type yet.
pub open spec fn bare_block(block_type: u32) -> Block {
    Block { block_type, tags: Seq::empty(), children: Seq::empty() }
}

/// The block that begins at entry `start` of the directory, with the index
/// of the entry behind it. An entry that starts a block gives the block its
/// type, which is the number that the entry's tag holds in the file.
pub open spec fn dir_block(file: Seq<u8>, dir: Seq<Tag>, start: int) -> Result<
    (int, Block),
    FiffError,
>
    decreases dir.len() - start,
        (if 0 <= start < dir.len() && dir[start].kind == KIND_BLOCK_START {
            1int
        } else {
            3int
        }),
{
    if start < 0 || start >= dir.len() {
        Err(FiffError::Layout)
    } else if dir[start].kind == KIND_BLOCK_START {
        match tag_data(file, dir[start]) {
            Ok(TagContent::Int(block_type)) => dir_rest(
                file,
                dir,
                start + 1,
                bare_block(unsigned(block_type)),
            ),
            Ok(_) => Err(FiffError::Layout),
            Err(e) => Err(e),
        }
    } else {
        dir_rest(file, dir, start, bare_block(0))
    }
}

/// The block `block` completed by the entries from `i` on: an entry that
/// starts a block adds a child, an entry that ends a block ends this one,
/// any other entry adds a tag. The directory's end ends the block too.
pub open spec fn dir_rest(file: Seq<u8>, dir: Seq<Tag>, i: int, block: Block) -> Result<
    (int, Block),
    FiffError,
>
    decreases dir.len() - i, 2int,
{
    if i < 0 || i >= dir.len() {
        Ok((i, block))
    } else if dir[i].kind == KIND_BLOCK_START {
        match dir_block(file, dir, i) {
            Ok((next, child)) => if i < next <= dir.len() {
                dir_rest(
                    file,
                    dir,
                    next,
                    Block {
                        block_type: block.block_type,
                        tags: block.tags,
                        children: block.children.push(child),
                    },
                )
            } else {
                Err(FiffError::Layout)
            },
            Err(e) => Err(e),
        }
    } else if dir[i].kind == KIND_BLOCK_END {
        Ok((i + 1, block))
    } else {
        dir_rest(
            file,
            dir,
            i + 1,
            Block {
                block_type: block.block_type,
                tags: block.tags.push(dir[i]),
                children: block.children,
            },
        )
    }
}

/// A block takes up at least one entry of the directory, and ends inside
/// the directory.
pub proof fn lemma_dir_block_advances(file: Seq<u8>, dir: Seq<Tag>, start: int)
    ensures
        match dir_block(file, dir, start) {
            Ok((next, _)) => start < next <= dir.len(),
            Err(_) => true,
        },
    decreases dir.len() - start,
        (if 0 <= start < dir.len() && dir[start].kind == KIND_BLOCK_START {
            1int
        } else {
            3int
        }),
{
    if 0 <= start < dir.len() {
        if dir[start].kind == KIND_BLOCK_START {
            match tag_data(file, dir[start]) {
                Ok(TagContent::Int(block_type)) => {
                    lemma_dir_rest_advances(
                        file,
                        dir,
                        start + 1,
                        bare_block(unsigned(block_type)),
                    );
                },
                _ => {},
            }
        } else {
            lemma_dir_rest_advances(file, dir, start, bare_block(0));
        }
    }
}

/// Completing a block never goes back in the directory, and takes up at
/// least one entry unless the directory has ended.
pub proof fn lemma_dir_rest_advances(file: Seq<u8>, dir: Seq<Tag>, i: int, block: Block)
    requires
        0 <= i <= dir.len(),
    ensures
        match dir_rest(file, dir, i, block) {
            Ok((next, _)) => i <= next <= dir.len() && (i < dir.len() ==> i < next),
            Err(_) => true,
        },
    decreases dir.len() - i, 2int,
{
    if i < dir.len() {
        if dir[i].kind == KIND_BLOCK_START {
            lemma_dir_block_advances(file, dir, i);
            match dir_block(file, dir, i) {
                Ok((next, child)) => {
                    lemma_dir_rest_advances(
                        file,
                        dir,
                        next,
                        Block {
                            block_type: block.block_type,
                            tags: block.tags,
                            children: block.children.push(child),
                        },
                    );
                },
                Err(_) => {},
            }
        } else if dir[i].kind == KIND_BLOCK_END {
        } else {
            lemma_dir_rest_advances(
                file,
                dir,
                i + 1,
                Block {
                    block_type: block.block_type,
                    tags: block.tags.push(dir[i]),
                    children: block.children,
                },
            );
        }
    }
}

/// The unsigned number with the same 32 bits.
fn to_unsigned(n: i32) -> (r: u32)
    ensures
        r == unsigned(n),
{
    if n >= 0 {
        n as u32
    } else {
        ((n + 0x4000_0000 + 0x4000_0000) as u32) + 0x8000_0000
    }
}

/// Builds the block that begins at entry `start` of the directory, and
/// says which entry follows it.
pub fn make_dir_tree(file: &[u8], dir: &Vec<Tag>, start: usize) -> (r: Result<
    (usize, Tree),
    FiffError,
>)
    requires
        start < dir.len(),
    ensures
        match r {
            Ok((next, tree)) => {
                &&& dir_block(file@, dir@, start as int) == Ok::<(int, Block), FiffError>(
                    (next as int, tree@),
                )
                &&& start < next <= dir.len()
            },
            Err(e) => dir_block(file@, dir@, start as int) == Err::<(int, Block), FiffError>(e),
        },
    decreases dir.len() - start,
{
    let mut i: usize = start;
    let mut tree = Tree { block_type: 0, tags: Vec::new(), children: Vec::new() };
    assert(tree@ =~= bare_block(0)) by {
        assert(tree@.children =~= Seq::<Block>::empty());
    }

    if dir[start].kind == KIND_BLOCK_START {
        let entry = &dir[start];
        match read_tag_data(file, entry) {
            Ok(TagData::Int(block_type)) => {
                tree.block_type = to_unsigned(block_type);
            },
            Ok(_) => {
                return Err(FiffError::Layout);
            },
            Err(e) => {
                return Err(e);
            },
        }
        i += 1;
        assert(tree@ =~= bare_block(tree.block_type)) by {
            assert(tree@.children =~= Seq::<Block>::empty());
        }
    }

    while i < dir.len()
        invariant
            start < dir.len(),
            start <= i <= dir.len(),
            i > start || dir@[start as int].kind != KIND_BLOCK_START,
            dir_rest(file@, dir@, i as int, tree@) == dir_block(file@, dir@, start as int),
        decreases dir.len() - i,
    {
        let entry = dir[i];
        let ghost block = tree@;
        if entry.kind == KIND_BLOCK_START {
            match make_dir_tree(file, dir, i) {
                Ok((i2, child)) => {
                    i = i2;
                    let ghost child_block = child@;
                    tree.children.push(child);
                    assert(tree@ =~= (Block {
                        block_type: block.block_type,
                        tags: block.tags,
                        children: block.children.push(child_block),
                    })) by {
                        assert(tree@.children =~= block.children.push(child_block));
                    }
                },
                Err(e) => {
                    return Err(e);
                },
            }
        } else if entry.kind == KIND_BLOCK_END {
            return Ok((i + 1, tree));
        } else {
            tree.tags.push(
                Tag { kind: entry.kind, tag_type: entry.tag_type, size: entry.size, pos: entry.pos },
            );
            i += 1;
            assert(tree@ =~= (Block {
                block_type: block.block_type,
                tags: block.tags.push(entry),
                children: block.children,
            })) by {
                assert(tree@.children =~= block.children);
            }
        }
    }

    Ok((i, tree))
}

/// The directory tree of a file: the file must begin with the tag that
/// identifies it; the tag behind it must point to the directory, which is
/// a list of entries; the tree is the block that begins at the first entry.
pub open spec fn directory(file: Seq<u8>) -> Result<Block, FiffError> {
    let id_tag = tag_at(file, 0);
    let pointer_pos = position_after(file, 0);
    let pointer_tag = tag_at(file, pointer_pos);
    if 16 > file.len() {
        Err(FiffError::ShortRead)
    } else if id_tag.kind != KIND_FILE_ID || id_tag.tag_type != TYPE_ID_STRUCT {
        Err(FiffError::Layout)
    } else if pointer_pos > u32::MAX {
        Err(FiffError::Layout)
    } else if pointer_pos + 16 > file.len() {
        Err(FiffError::ShortRead)
    } else if pointer_tag.kind != KIND_DIR_POINTER {
        Err(FiffError::Layout)
    } else {
        match tag_data(file, pointer_tag) {
            Ok(TagContent::Int(dir_pos)) => directory_at(file, unsigned(dir_pos) as int),
            Ok(_) => Err(FiffError::Layout),
            Err(e) => Err(e),
        }
    }
}

/// The directory tree of a file whose directory stands at `dir_pos`.
pub open spec fn directory_at(file: Seq<u8>, dir_pos: int) -> Result<Block, FiffError> {
    let dir_tag = tag_at(file, dir_pos);
    if dir_pos + 16 > file.len() {
        Err(FiffError::ShortRead)
    } else if dir_tag.tag_type != TYPE_DIR_ENTRY_STRUCT {
        Err(FiffError::Layout)
    } else {
        match tag_data(file, dir_tag) {
            Ok(TagContent::DirEntryStruct(entries)) => match dir_block(file, entries, 0) {
                Ok((_, block)) => Ok(block),
                Err(e) => Err(e),
            },
            Ok(_) => Err(FiffError::Layout),
            Err(e) => Err(e),
        }
    }
}

/// Reads the directory tree of a file.
pub fn open(file: &[u8]) -> (r: Result<Tree, FiffError>)
    ensures
        match r {
            Ok(tree) => directory(file@) == Ok::<Block, FiffError>(tree@),
            Err(e) => directory(file@) == Err::<Block, FiffError>(e),
        },
{
    let (id_tag, after) = match read_tag(file, 0) {
        Ok(found) => found,
        Err(e) => {
            return Err(e);
        },
    };
    if id_tag.kind != KIND_FILE_ID || id_tag.tag_type != TYPE_ID_STRUCT {
        return Err(FiffError::Layout);
    }
    if after > 0xffff_ffff {
        return Err(FiffError::Layout);
    }
    let dir_pointer_tag_pos: u32 = after as u32;
    let (dir_pointer_tag, _) = match read_tag(file, dir_pointer_tag_pos) {
        Ok(found) => found,
        Err(e) => {
            return Err(e);
        },
    };
    if dir_pointer_tag.kind != KIND_DIR_POINTER {
        return Err(FiffError::Layout);
    }
    let dir_pos: i32 = match read_tag_data(file, &dir_pointer_tag) {
        Ok(TagData::Int(dir_pos)) => dir_pos,
        Ok(_) => {
            return Err(FiffError::Layout);
        },
        Err(e) => {
            return Err(e);
        },
    };
    let (dir_struct_tag, _) = match read_tag(file, to_unsigned(dir_pos)) {
        Ok(found) => found,
        Err(e) => {
            return Err(e);
        },
    };
    if dir_struct_tag.tag_type != TYPE_DIR_ENTRY_STRUCT {
        return Err(FiffError::Layout);
    }
    let dir_entries: Vec<Tag> = match read_tag_data(file, &dir_struct_tag) {
        Ok(TagData::DirEntryStruct(entries)) => entries,
        Ok(_) => {
            return Err(FiffError::Layout);
        },
        Err(e) => {
            return Err(e);
        },
    };
    if dir_entries.len() == 0 {
        return Err(FiffError::Layout);
    }
    match make_dir_tree(file, &dir_entries, 0) {
        Ok((_, tree)) => Ok(tree),
        Err(e) => Err(e),
    }
}

} // verus!
