use libtfce::fiff::{
    find_and_read_tag, find_blocks, make_dir_tree, open, read_tag, read_tag_data, FiffError, Tag,
    TagData, Tree, BLOCK_MNE_SOURCE_SPACE, KIND_BLOCK_END, KIND_BLOCK_START, KIND_DIR_POINTER,
    KIND_FILE_ID, KIND_MNE_SOURCE_SPACE_USED_TRIANGLES, KIND_MNE_SOURCE_SPACE_USED_VERTEX_COUNT,
    TYPE_DIR_ENTRY_STRUCT, TYPE_FLOAT, TYPE_ID_STRUCT, TYPE_INT, TYPE_STRING,
};
use libtfce::freesurfer::read_source_space_to_graph;
use libtfce::voxel::ZERO_VALUE;

const MATRIX: u32 = 0x4000_0000;

struct File {
    bytes: Vec<u8>,
    dir: Vec<Tag>,
}

fn word(n: u32) -> [u8; 4] {
    n.to_be_bytes()
}

fn number(n: i32) -> Vec<u8> {
    n.to_be_bytes().to_vec()
}

fn matrix(rows: &[Vec<i32>]) -> Vec<u8> {
    let mut data = Vec::new();
    for row in rows {
        for n in row {
            data.extend_from_slice(&n.to_be_bytes());
        }
    }
    data.extend_from_slice(&(rows[0].len() as i32).to_be_bytes());
    data.extend_from_slice(&(rows.len() as i32).to_be_bytes());
    data.extend_from_slice(&2i32.to_be_bytes());
    data
}

impl File {
    fn new() -> File {
        let mut file = File { bytes: Vec::new(), dir: Vec::new() };
        file.raw(KIND_FILE_ID, TYPE_ID_STRUCT, 0, &[7u8; 20]);
        // the directory pointer is filled in at the end
        file.raw(KIND_DIR_POINTER, TYPE_INT, 0, &number(0));
        file
    }

    fn raw(&mut self, kind: u32, tag_type: u32, next: i32, data: &[u8]) -> Tag {
        let tag = Tag { kind, tag_type, size: data.len() as u32, pos: self.bytes.len() as u32 };
        self.bytes.extend_from_slice(&word(kind));
        self.bytes.extend_from_slice(&word(tag_type));
        self.bytes.extend_from_slice(&word(data.len() as u32));
        self.bytes.extend_from_slice(&next.to_be_bytes());
        self.bytes.extend_from_slice(data);
        tag
    }

    fn tag(&mut self, kind: u32, tag_type: u32, data: &[u8]) -> Tag {
        let tag = self.raw(kind, tag_type, 0, data);
        self.dir.push(tag);
        tag
    }

    fn finish(mut self) -> Vec<u8> {
        let dir_pos = self.bytes.len() as i32;
        let mut entries = Vec::new();
        for tag in self.dir.iter() {
            entries.extend_from_slice(&word(tag.kind));
            entries.extend_from_slice(&word(tag.tag_type));
            entries.extend_from_slice(&word(tag.size));
            entries.extend_from_slice(&word(tag.pos));
        }
        self.raw(102, TYPE_DIR_ENTRY_STRUCT, -1, &entries);
        self.bytes[52..56].copy_from_slice(&dir_pos.to_be_bytes());
        self.bytes
    }
}

fn source_space_file() -> Vec<u8> {
    let mut file = File::new();
    file.tag(KIND_BLOCK_START, TYPE_INT, &number(999));
    file.tag(200, TYPE_STRING, b"two hemispheres");
    file.tag(KIND_BLOCK_START, TYPE_INT, &number(BLOCK_MNE_SOURCE_SPACE as i32));
    file.tag(KIND_MNE_SOURCE_SPACE_USED_VERTEX_COUNT, TYPE_INT, &number(3));
    file.tag(
        KIND_MNE_SOURCE_SPACE_USED_TRIANGLES,
        MATRIX | TYPE_INT,
        &matrix(&[vec![1, 2, 3], vec![2, 3, 4]]),
    );
    file.tag(KIND_BLOCK_END, TYPE_INT, &number(BLOCK_MNE_SOURCE_SPACE as i32));
    file.tag(KIND_BLOCK_START, TYPE_INT, &number(BLOCK_MNE_SOURCE_SPACE as i32));
    file.tag(KIND_MNE_SOURCE_SPACE_USED_VERTEX_COUNT, TYPE_INT, &number(2));
    file.tag(KIND_MNE_SOURCE_SPACE_USED_TRIANGLES, MATRIX | TYPE_INT, &matrix(&[vec![1, 2, 3]]));
    file.tag(KIND_BLOCK_END, TYPE_INT, &number(BLOCK_MNE_SOURCE_SPACE as i32));
    file.tag(KIND_BLOCK_END, TYPE_INT, &number(999));
    file.finish()
}

fn data_of(tag_type: u32, data: &[u8]) -> Result<TagData, FiffError> {
    let mut file = File::new();
    let tag = file.tag(300, tag_type, data);
    read_tag_data(&file.bytes, &tag)
}

fn error_of(tag_type: u32, data: &[u8]) -> FiffError {
    match data_of(tag_type, data) {
        Err(e) => e,
        Ok(data) => panic!("read {:?}", data),
    }
}

#[test]
fn read_tag_reads_the_header_and_says_where_the_reader_is() {
    let bytes = source_space_file();
    let (id, after) = read_tag(&bytes, 0).unwrap();
    assert_eq!(id, Tag { kind: KIND_FILE_ID, tag_type: TYPE_ID_STRUCT, size: 20, pos: 0 });
    assert_eq!(after, 36);
    let (pointer, after) = read_tag(&bytes, 36).unwrap();
    assert_eq!(pointer, Tag { kind: KIND_DIR_POINTER, tag_type: TYPE_INT, size: 4, pos: 36 });
    assert_eq!(after, 52);
    assert_eq!(read_tag(&bytes, bytes.len() as u32 - 15), Err(FiffError::ShortRead));
    assert_eq!(read_tag(&bytes[..15], 0), Err(FiffError::ShortRead));
}

#[test]
fn read_tag_follows_the_pointer_to_the_next_tag() {
    let mut file = File::new();
    let tag = file.raw(300, TYPE_INT, 1234, &number(5));
    let (read, after) = read_tag(&file.bytes, tag.pos).unwrap();
    assert_eq!(read, tag);
    assert_eq!(after, 1234);
    let mut file = File::new();
    let tag = file.raw(0x8000_0001, TYPE_INT, -1, &number(5));
    let (read, after) = read_tag(&file.bytes, tag.pos).unwrap();
    assert_eq!(read.kind, 0x8000_0001);
    assert_eq!(after, tag.pos as u64 + 16);
}

#[test]
fn read_tag_data_reads_numbers_and_text() {
    match data_of(TYPE_INT, &number(-7)) {
        Ok(TagData::Int(n)) => assert_eq!(n, -7),
        other => panic!("read {:?}", other),
    }
    match data_of(TYPE_INT, &number(0x0102_0304)) {
        Ok(TagData::Int(n)) => assert_eq!(n, 0x0102_0304),
        other => panic!("read {:?}", other),
    }
    match data_of(TYPE_FLOAT, &1.5f32.to_bits().to_be_bytes()) {
        Ok(TagData::Float(bits)) => assert_eq!(f32::from_bits(bits), 1.5),
        other => panic!("read {:?}", other),
    }
    match data_of(TYPE_STRING, b"left") {
        Ok(TagData::String(text)) => assert_eq!(text, b"left".to_vec()),
        other => panic!("read {:?}", other),
    }
}

#[test]
fn read_tag_data_reads_matrices_row_by_row() {
    match data_of(MATRIX | TYPE_INT, &matrix(&[vec![1, -2, 3], vec![4, 5, -6]])) {
        Ok(TagData::ArrayInt(rows)) => assert_eq!(rows, vec![vec![1, -2, 3], vec![4, 5, -6]]),
        other => panic!("read {:?}", other),
    }
    let bits = |x: f32| x.to_bits() as i32;
    match data_of(MATRIX | TYPE_FLOAT, &matrix(&[vec![bits(0.5)], vec![bits(-2.0)]])) {
        Ok(TagData::ArrayFloat(rows)) => {
            assert_eq!(rows, vec![vec![0.5f32.to_bits()], vec![(-2.0f32).to_bits()]])
        }
        other => panic!("read {:?}", other),
    }
}

#[test]
fn read_tag_data_reads_directory_entries() {
    let mut data = Vec::new();
    for n in [1u32, 2, 3, 4, 0xffff_ffff, 6, 7, 8] {
        data.extend_from_slice(&word(n));
    }
    data.extend_from_slice(&[0u8; 5]);
    match data_of(TYPE_DIR_ENTRY_STRUCT, &data) {
        Ok(TagData::DirEntryStruct(entries)) => assert_eq!(
            entries,
            vec![
                Tag { kind: 1, tag_type: 2, size: 3, pos: 4 },
                Tag { kind: 0xffff_ffff, tag_type: 6, size: 7, pos: 8 },
            ]
        ),
        other => panic!("read {:?}", other),
    }
}

#[test]
fn read_tag_data_says_what_is_wrong() {
    assert_eq!(error_of(99, &number(1)), FiffError::TagType);
    assert_eq!(error_of(0x2000_0000 | TYPE_INT, &matrix(&[vec![1]])), FiffError::MatrixCoding);
    assert_eq!(error_of(MATRIX | TYPE_STRING, &matrix(&[vec![1]])), FiffError::MatrixType);
    assert_eq!(error_of(MATRIX | TYPE_INT, &[0u8; 8]), FiffError::SizeMismatch);
    let mut three = matrix(&[vec![1, 2]]);
    let end = three.len();
    three[end - 4..].copy_from_slice(&3i32.to_be_bytes());
    assert_eq!(error_of(MATRIX | TYPE_INT, &three), FiffError::MatrixDimensions);
    let mut negative = matrix(&[vec![1, 2]]);
    negative[end - 8..end - 4].copy_from_slice(&(-1i32).to_be_bytes());
    assert_eq!(error_of(MATRIX | TYPE_INT, &negative), FiffError::SizeMismatch);
    let mut too_many = matrix(&[vec![1, 2]]);
    too_many[end - 8..end - 4].copy_from_slice(&2i32.to_be_bytes());
    assert_eq!(error_of(MATRIX | TYPE_INT, &too_many), FiffError::SizeMismatch);

    let mut file = File::new();
    let tag = file.tag(300, TYPE_INT, &number(1));
    let short = &file.bytes[..file.bytes.len() - 1];
    assert_eq!(read_tag_data(short, &tag).err(), Some(FiffError::ShortRead));
    let long = Tag { kind: 300, tag_type: TYPE_STRING, size: 5, pos: tag.pos };
    assert_eq!(read_tag_data(&file.bytes, &long).err(), Some(FiffError::ShortRead));
    let long = Tag { kind: 300, tag_type: MATRIX | TYPE_INT, size: 40, pos: tag.pos };
    assert_eq!(read_tag_data(&file.bytes, &long).err(), Some(FiffError::ShortRead));
    let long = Tag { kind: 300, tag_type: TYPE_DIR_ENTRY_STRUCT, size: 16, pos: tag.pos };
    assert_eq!(read_tag_data(&file.bytes, &long).err(), Some(FiffError::ShortRead));
}

#[test]
fn open_builds_the_directory_tree() {
    let bytes = source_space_file();
    let tree = open(&bytes).unwrap();
    assert_eq!(tree.block_type, 999);
    assert_eq!(tree.tags.len(), 1);
    assert_eq!(tree.tags[0].kind, 200);
    assert_eq!(tree.children.len(), 2);
    for child in tree.children.iter() {
        assert_eq!(child.block_type, BLOCK_MNE_SOURCE_SPACE);
        assert_eq!(child.tags.len(), 2);
        assert_eq!(child.children.len(), 0);
    }
    let copy = tree.clone();
    assert_eq!(copy.children[1].tags, tree.children[1].tags);
    assert_eq!(copy.tags, tree.tags);
}

#[test]
fn open_rejects_what_is_not_such_a_file() {
    let bytes = source_space_file();
    assert_eq!(open(&bytes[..10]).err(), Some(FiffError::ShortRead));
    assert_eq!(open(&bytes[..bytes.len() - 3]).err(), Some(FiffError::ShortRead));
    let mut other = bytes.clone();
    other[3] = 99;
    assert_eq!(open(&other).err(), Some(FiffError::Layout));
    let mut other = bytes.clone();
    other[39] = 99;
    assert_eq!(open(&other).err(), Some(FiffError::Layout));
    let mut other = bytes.clone();
    other[52..56].copy_from_slice(&36i32.to_be_bytes());
    assert_eq!(open(&other).err(), Some(FiffError::Layout));
    let empty = File::new().finish();
    assert_eq!(open(&empty).err(), Some(FiffError::Layout));
}

#[test]
fn make_dir_tree_ends_a_block_at_its_end_tag() {
    let mut file = File::new();
    let start = file.tag(KIND_BLOCK_START, TYPE_INT, &number(5));
    let inner = file.tag(300, TYPE_INT, &number(1));
    let end = file.tag(KIND_BLOCK_END, TYPE_INT, &number(5));
    let outer = file.tag(301, TYPE_INT, &number(2));
    let dir = vec![start, inner, end, outer];
    let (next, tree) = make_dir_tree(&file.bytes, &dir, 0).unwrap();
    assert_eq!(next, 3);
    assert_eq!(tree.block_type, 5);
    assert_eq!(tree.tags, vec![inner]);
    let (next, tree) = make_dir_tree(&file.bytes, &dir, 1).unwrap();
    assert_eq!(next, 3);
    assert_eq!(tree.block_type, 0);
    assert_eq!(tree.tags, vec![inner]);
    let (next, tree) = make_dir_tree(&file.bytes, &dir, 3).unwrap();
    assert_eq!(next, 4);
    assert_eq!(tree.tags, vec![outer]);
    let text = file.tag(KIND_BLOCK_START, TYPE_STRING, b"five");
    assert_eq!(make_dir_tree(&file.bytes, &vec![text], 0).err(), Some(FiffError::Layout));
}

#[test]
fn find_blocks_stops_at_the_topmost_match() {
    let leaf = |block_type: u32| Tree { block_type, tags: vec![], children: vec![] };
    let tree = Tree {
        block_type: 1,
        tags: vec![],
        children: vec![
            Tree { block_type: 7, tags: vec![], children: vec![leaf(7), leaf(3)] },
            leaf(2),
            Tree { block_type: 4, tags: vec![], children: vec![leaf(7)] },
        ],
    };
    let found = find_blocks(&tree, 7);
    assert_eq!(found.len(), 2);
    assert!(std::ptr::eq(found[0], &tree.children[0]));
    assert!(std::ptr::eq(found[1], &tree.children[2].children[0]));
    assert_eq!(find_blocks(&tree, 1).len(), 1);
    assert_eq!(find_blocks(&tree, 3).len(), 1);
    assert_eq!(find_blocks(&tree, 9).len(), 0);
}

#[test]
fn find_and_read_tag_takes_the_first_in_directory_order() {
    let bytes = source_space_file();
    let tree = open(&bytes).unwrap();
    match find_and_read_tag(&bytes, &tree, KIND_MNE_SOURCE_SPACE_USED_VERTEX_COUNT) {
        Ok(Some(TagData::Int(n))) => assert_eq!(n, 3),
        other => panic!("read {:?}", other),
    }
    match find_and_read_tag(&bytes, &tree.children[1], KIND_MNE_SOURCE_SPACE_USED_VERTEX_COUNT) {
        Ok(Some(TagData::Int(n))) => assert_eq!(n, 2),
        other => panic!("read {:?}", other),
    }
    match find_and_read_tag(&bytes, &tree, 200) {
        Ok(Some(TagData::String(text))) => assert_eq!(text, b"two hemispheres".to_vec()),
        other => panic!("read {:?}", other),
    }
    assert!(matches!(find_and_read_tag(&bytes, &tree, 12345), Ok(None)));
    let cut = &bytes[..tree.children[0].tags[0].pos as usize + 17];
    assert_eq!(
        find_and_read_tag(cut, &tree, KIND_MNE_SOURCE_SPACE_USED_VERTEX_COUNT).err(),
        Some(FiffError::ShortRead)
    );
}

#[test]
fn source_space_file_gives_the_mesh_of_both_hemispheres() {
    let voxels = read_source_space_to_graph(&source_space_file()).unwrap();
    let links: Vec<Vec<usize>> = voxels.iter().map(|v| v.voxel_links.clone()).collect();
    assert_eq!(
        links,
        vec![
            vec![1, 2],
            vec![0, 2, 3],
            vec![0, 1, 3],
            vec![1, 2],
            vec![5, 6],
            vec![4, 6],
            vec![4, 5],
        ]
    );
    assert!(voxels.iter().all(|v| v.value == ZERO_VALUE));
}

#[test]
fn source_space_file_with_one_hemisphere_or_bad_corners_is_rejected() {
    let mut file = File::new();
    file.tag(KIND_BLOCK_START, TYPE_INT, &number(BLOCK_MNE_SOURCE_SPACE as i32));
    file.tag(KIND_MNE_SOURCE_SPACE_USED_VERTEX_COUNT, TYPE_INT, &number(2));
    file.tag(KIND_MNE_SOURCE_SPACE_USED_TRIANGLES, MATRIX | TYPE_INT, &matrix(&[vec![1, 2, 3]]));
    file.tag(KIND_BLOCK_END, TYPE_INT, &number(0));
    assert_eq!(read_source_space_to_graph(&file.finish()).err(), Some(FiffError::Layout));

    let mut file = File::new();
    file.tag(KIND_BLOCK_START, TYPE_INT, &number(999));
    for corner in [3, 4] {
        file.tag(KIND_BLOCK_START, TYPE_INT, &number(BLOCK_MNE_SOURCE_SPACE as i32));
        file.tag(KIND_MNE_SOURCE_SPACE_USED_VERTEX_COUNT, TYPE_INT, &number(2));
        file.tag(
            KIND_MNE_SOURCE_SPACE_USED_TRIANGLES,
            MATRIX | TYPE_INT,
            &matrix(&[vec![1, 2, corner]]),
        );
        file.tag(KIND_BLOCK_END, TYPE_INT, &number(0));
    }
    assert_eq!(read_source_space_to_graph(&file.finish()).err(), Some(FiffError::SizeMismatch));

    let mut file = File::new();
    file.tag(KIND_BLOCK_START, TYPE_INT, &number(999));
    for _ in 0..2 {
        file.tag(KIND_BLOCK_START, TYPE_INT, &number(BLOCK_MNE_SOURCE_SPACE as i32));
        file.tag(KIND_MNE_SOURCE_SPACE_USED_VERTEX_COUNT, TYPE_FLOAT, &number(2));
        file.tag(KIND_BLOCK_END, TYPE_INT, &number(0));
    }
    assert_eq!(read_source_space_to_graph(&file.finish()).err(), Some(FiffError::Layout));
}
