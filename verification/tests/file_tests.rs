use libtfce::stc::{concat_pair, read, Stc};
use libtfce::{read_data_file, write_mask_file};

fn stc_bytes() -> Vec<u8> {
    let mut bytes = Vec::new();
    bytes.extend_from_slice(&(-0.25f32).to_bits().to_be_bytes());
    bytes.extend_from_slice(&0.5f32.to_bits().to_be_bytes());
    bytes.extend_from_slice(&2u32.to_be_bytes());
    bytes.extend_from_slice(&5u32.to_be_bytes());
    bytes.extend_from_slice(&0x0102_0304u32.to_be_bytes());
    bytes.extend_from_slice(&3u32.to_be_bytes());
    for v in [1.0f32, 2.0, 3.0, 4.0, 5.0, 6.0] {
        bytes.extend_from_slice(&v.to_bits().to_be_bytes());
    }
    bytes
}

#[test]
fn stc_read_takes_the_file_apart() {
    let stc = read(&stc_bytes()).unwrap();
    assert_eq!(f32::from_bits(stc.time_min), -0.25);
    assert_eq!(f32::from_bits(stc.time_step), 0.5);
    assert_eq!(stc.vertex_count, 2);
    assert_eq!(stc.vertex_indices, vec![5, 0x0102_0304]);
    assert_eq!(stc.time_count, 3);
    let data: Vec<Vec<f32>> =
        stc.data.iter().map(|row| row.iter().map(|v| f32::from_bits(*v)).collect()).collect();
    assert_eq!(data, vec![vec![1.0, 2.0], vec![3.0, 4.0], vec![5.0, 6.0]]);
}

#[test]
fn stc_read_ignores_what_follows_the_data() {
    let mut bytes = stc_bytes();
    bytes.extend_from_slice(&[1, 2, 3]);
    assert_eq!(read(&bytes).unwrap().data.len(), 3);
}

#[test]
fn stc_read_of_a_short_file_is_none() {
    let bytes = stc_bytes();
    for len in [0, 11, 12, 19, 23, bytes.len() - 1] {
        assert!(read(&bytes[..len]).is_none());
    }
    let mut huge = stc_bytes();
    huge[8..12].copy_from_slice(&0xffff_ffffu32.to_be_bytes());
    assert!(read(&huge).is_none());
    let mut huge = stc_bytes();
    huge[20..24].copy_from_slice(&0xffff_ffffu32.to_be_bytes());
    assert!(read(&huge).is_none());
}

#[test]
fn stc_write_puts_the_file_together_again() {
    let bytes = stc_bytes();
    assert_eq!(libtfce::stc::write(&read(&bytes).unwrap()), bytes);
    let empty = Stc {
        time_min: 0,
        time_step: 0,
        vertex_count: 0,
        vertex_indices: vec![],
        time_count: 0,
        data: vec![],
    };
    assert_eq!(libtfce::stc::write(&empty), vec![0u8; 16]);
    assert!(read(&vec![0u8; 16]).is_some());
}

#[test]
fn stc_write_writes_counts_and_contents_as_they_are() {
    let stc = Stc {
        time_min: 1,
        time_step: 2,
        vertex_count: 0x0a0b,
        vertex_indices: vec![0x0c0d_0e0f],
        time_count: 7,
        data: vec![vec![0x1122_3344, 0x5566_7788], vec![0x99aa_bbcc]],
    };
    assert_eq!(
        libtfce::stc::write(&stc),
        vec![
            0, 0, 0, 1, 0, 0, 0, 2, 0, 0, 0x0a, 0x0b, 0x0c, 0x0d, 0x0e, 0x0f, 0, 0, 0, 7, 0x11,
            0x22, 0x33, 0x44, 0x55, 0x66, 0x77, 0x88, 0x99, 0xaa, 0xbb, 0xcc,
        ]
    );
}

#[test]
fn concat_pair_puts_the_hemispheres_side_by_side() {
    let lh = Stc {
        time_min: 0,
        time_step: 0,
        vertex_count: 2,
        vertex_indices: vec![0, 1],
        time_count: 2,
        data: vec![vec![1, 2], vec![3, 4], vec![99, 99]],
    };
    let rh = Stc {
        time_min: 0,
        time_step: 0,
        vertex_count: 1,
        vertex_indices: vec![0],
        time_count: 3,
        data: vec![vec![10], vec![20], vec![30]],
    };
    assert_eq!(concat_pair(&lh, &rh), vec![1, 2, 10, 3, 4, 20]);
}

fn data_file(a: &[Vec<f64>], b: &[Vec<f64>]) -> Vec<u8> {
    let mut bytes = Vec::new();
    bytes.extend_from_slice(&(a.len() as u32).to_le_bytes());
    for (sa, sb) in a.iter().zip(b.iter()) {
        for s in [sa, sb] {
            bytes.extend_from_slice(&(s.len() as u32).to_le_bytes());
            for v in s.iter() {
                bytes.extend_from_slice(&v.to_bits().to_le_bytes());
            }
        }
    }
    bytes
}

fn floats(rows: &Vec<Vec<u64>>) -> Vec<Vec<f64>> {
    rows.iter().map(|row| row.iter().map(|v| f64::from_bits(*v)).collect()).collect()
}

#[test]
fn data_file_holds_both_conditions_of_each_subject() {
    let a = vec![vec![0.5, -1.25, 3.0], vec![7.0, 8.0, 1e-300]];
    let b = vec![vec![2.5, 1.0, 0.0], vec![-7.0, 1e300]];
    let (read_a, read_b) = read_data_file(&data_file(&a, &b)).unwrap();
    assert_eq!(floats(&read_a), a);
    assert_eq!(floats(&read_b), b);
    let (none_a, none_b) = read_data_file(&0u32.to_le_bytes()).unwrap();
    assert!(none_a.is_empty() && none_b.is_empty());
}

#[test]
fn data_file_that_ends_early_is_none() {
    let bytes = data_file(&[vec![1.0, 2.0]], &[vec![3.0]]);
    for len in [0, 3, 4, 7, 8, 23, 27, bytes.len() - 1] {
        assert!(read_data_file(&bytes[..len]).is_none(), "at {}", len);
    }
    assert!(read_data_file(&bytes).is_some());
    let mut more = bytes.clone();
    more[0] = 2;
    assert!(read_data_file(&more).is_none());
}

#[test]
fn mask_file_counts_and_lists_the_flags() {
    assert_eq!(write_mask_file(&vec![true, false, true]), vec![3, 0, 0, 0, 1, 0, 1]);
    assert_eq!(write_mask_file(&vec![]), vec![0, 0, 0, 0]);
    let long = write_mask_file(&vec![true; 0x0102]);
    assert_eq!(&long[..4], &[2, 1, 0, 0]);
    assert_eq!(long.len(), 4 + 0x0102);
}

#[test]
fn mask_is_split_by_hemisphere() {
    // two time points, two vertices on the left and three on the right
    let mask = vec![true, false, false, true, true, false, true, false, false, true, true];
    let (lh, rh) = libtfce::stc::split_mask(&mask, 2, 3, 2);
    assert_eq!(lh, vec![vec![true, false], vec![false, true]]);
    assert_eq!(rh, vec![vec![false, true, true], vec![false, false, true]]);
    let (lh, rh) = libtfce::stc::split_mask(&mask, 2, 3, 0);
    assert!(lh.is_empty() && rh.is_empty());
    let (lh, rh) = libtfce::stc::split_mask(&mask, 0, 11, 1);
    assert_eq!(lh, vec![Vec::<bool>::new()]);
    assert_eq!(rh, vec![mask.clone()]);
}
