use libtfce::field::generate_1d_field;
use libtfce::tfce::get_clusters;
use libtfce::voxel::Voxel;
use rand::{Rng, SeedableRng, StdRng};

fn key(v: f64) -> u64 {
    let v = v + 0.0;
    let bits = v.to_bits();
    if bits >> 63 == 1 {
        !bits
    } else {
        bits | (1u64 << 63)
    }
}

fn set_random_values(voxels: &mut Vec<Voxel>, min_value: f64, max_value: f64, seed: &[usize]) {
    let mut rng = StdRng::from_seed(seed);
    for v in voxels.iter_mut() {
        v.value = key(rng.gen_range(min_value, max_value));
    }
}

#[test]
fn test_get_clusters() {
    let mut voxels = generate_1d_field(6);
    set_random_values(&mut voxels, 0.0, 1.0, &[17556, 31771, 29830, 29830]);
    voxels[2].value = key(3.0);
    voxels[3].value = key(3.5);
    assert_eq!(
        get_clusters(&mut voxels, key(2.5)),
        vec![vec![2, 3]]
    );
}

#[test]
fn get_clusters_splits_at_nodes_below_the_threshold() {
    let values = [2.0, 3.0, 1.0, 2.0, 0.5, 2.0];
    let mut voxels = generate_1d_field(6);
    for (v, value) in voxels.iter_mut().zip(values.iter()) {
        v.value = key(*value);
    }
    assert_eq!(get_clusters(&voxels, key(2.0)), vec![vec![0, 1], vec![3], vec![5]]);
    assert_eq!(get_clusters(&voxels, key(1.0)), vec![vec![0, 1, 2, 3], vec![5]]);
    assert_eq!(get_clusters(&voxels, key(0.0)), vec![vec![0, 1, 2, 3, 4, 5]]);
    assert_eq!(get_clusters(&voxels, key(3.5)), Vec::<Vec<usize>>::new());
}

#[test]
fn get_clusters_goes_breadth_first() {
    let voxels = vec![
        Voxel::new(key(1.0), vec![2, 1]),
        Voxel::new(key(1.0), vec![0, 3]),
        Voxel::new(key(1.0), vec![0]),
        Voxel::new(key(1.0), vec![1]),
    ];
    assert_eq!(get_clusters(&voxels, key(1.0)), vec![vec![0, 2, 1, 3]]);
}

#[test]
fn get_clusters_of_no_nodes() {
    assert_eq!(get_clusters(&Vec::new(), 0), Vec::<Vec<usize>>::new());
}
