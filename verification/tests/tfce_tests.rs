use libtfce::tfce::ascent::{find_max_voxel, traverse_max};
use libtfce::tfce::builder::climb;
use libtfce::tfce::{build_cluster_tree, Cluster};
use libtfce::voxel::Voxel;

/// The order key of a statistic: larger statistics get larger keys.
fn key(v: f64) -> u64 {
    let v = v + 0.0;
    let bits = v.to_bits();
    if bits >> 63 == 1 {
        !bits
    } else {
        bits | (1u64 << 63)
    }
}

fn voxel(value: f64, links: Vec<usize>) -> Voxel {
    Voxel::new(key(value), links)
}

#[test]
fn test_build_clusters_single_element() {
    let mut voxels = vec![
        voxel(1.0, vec![])
    ];
    assert_eq!(
        build_cluster_tree(&mut voxels),
        Cluster {
            voxel_indices: vec![0],
            size: 1,
            parent_cluster_1: None,
            parent_cluster_2: None
        }
    );
}

#[test]
fn test_build_clusters_two_elements() {
    let mut voxels = vec![
        voxel(1.0, vec![1]),
        voxel(2.0, vec![0])
    ];
    assert_eq!(
        build_cluster_tree(&mut voxels),
        Cluster {
            voxel_indices: vec![1, 0],
            size: 2,
            parent_cluster_1: None,
            parent_cluster_2: None
        }
    );
}

#[test]
fn test_build_clusters_three_elements_linear() {
    let mut voxels = vec![
        voxel(1.0, vec![1]),
        voxel(2.0, vec![0, 2]),
        voxel(3.0, vec![1])
    ];
    assert_eq!(
        build_cluster_tree(&mut voxels),
        Cluster {
            voxel_indices: vec![2, 1, 0],
            size: 3,
            parent_cluster_1: None,
            parent_cluster_2: None
        }
    );
}

#[test]
fn test_build_clusters_three_elements_hut() {
    let mut voxels = vec![
        voxel(1.0, vec![1]),
        voxel(3.0, vec![0, 2]),
        voxel(2.0, vec![1])
    ];
    assert_eq!(
        build_cluster_tree(&mut voxels),
        Cluster {
            voxel_indices: vec![1, 2, 0],
            size: 3,
            parent_cluster_1: None,
            parent_cluster_2: None
        }
    );
}

#[test]
fn test_build_clusters_four_elements_linear_with_peak() {
    let mut voxels = vec![
        voxel(3.0, vec![1]),
        voxel(2.0, vec![0, 2]),
        voxel(1.0, vec![1, 3]),
        voxel(2.5, vec![2])
    ];
    assert_eq!(
        build_cluster_tree(&mut voxels),
        Cluster {
            voxel_indices: vec![2],
            size: 4,
            parent_cluster_1: Some(Box::new(Cluster {
                voxel_indices: vec![0, 1],
                size: 2,
                parent_cluster_1: None,
                parent_cluster_2: None
            })),
            parent_cluster_2: Some(Box::new(Cluster {
                voxel_indices: vec![3],
                size: 1,
                parent_cluster_1: None,
                parent_cluster_2: None
            }))
        }
    );
}

#[test]
fn test_build_clusters_five_elements_two_clusters() {
    let mut voxels = vec![
        voxel(3.0, vec![1]),
        voxel(2.0, vec![0, 2]),
        voxel(1.0, vec![1, 3]),
        voxel(2.5, vec![2, 4]),
        voxel(2.0, vec![3])
    ];
    assert_eq!(
        build_cluster_tree(&mut voxels),
        Cluster {
            voxel_indices: vec![2],
            size: 5,
            parent_cluster_1: Some(Box::new(Cluster {
                voxel_indices: vec![0, 1],
                size: 2,
                parent_cluster_1: None,
                parent_cluster_2: None
            })),
            parent_cluster_2: Some(Box::new(Cluster {
                voxel_indices: vec![3, 4],
                size: 2,
                parent_cluster_1: None,
                parent_cluster_2: None
            }))
        }
    );
}

#[test]
fn build_clusters_six_elements_three_levels() {
    let values = [1.0, 1.0, 3.0, 3.0, 2.0, 2.0];
    let mut voxels = libtfce::field::generate_1d_field(6);
    for (v, value) in voxels.iter_mut().zip(values.iter()) {
        v.value = key(*value);
    }
    let tree = build_cluster_tree(&voxels);
    assert_eq!(
        tree,
        Cluster {
            voxel_indices: vec![2, 3, 4, 5, 1, 0],
            size: 6,
            parent_cluster_1: None,
            parent_cluster_2: None
        }
    );
    let steps = libtfce::tfce::fill_clusters(tree);
    let sizes: Vec<usize> = (0..6)
        .map(|n| steps.iter().find(|s| s.voxel == n).unwrap().size)
        .collect();
    // {2, 3} stand alone at level 3, {4, 5} join them at level 2, {0, 1} at level 1
    assert_eq!(sizes, vec![6, 5, 1, 2, 3, 4]);
}

#[test]
fn build_clusters_equal_values_break_ties_by_index() {
    let voxels = vec![
        voxel(1.0, vec![1]),
        voxel(1.0, vec![0, 2]),
        voxel(1.0, vec![1]),
    ];
    assert_eq!(
        build_cluster_tree(&voxels),
        Cluster {
            voxel_indices: vec![0, 1, 2],
            size: 3,
            parent_cluster_1: None,
            parent_cluster_2: None
        }
    );
}

#[test]
fn build_clusters_two_hills_behind_one_saddle() {
    // 0 is the top; 1 is the saddle; 2 and 3 are two separate hills behind it
    let voxels = vec![
        voxel(9.0, vec![1]),
        voxel(1.0, vec![0, 2, 3]),
        voxel(5.0, vec![1]),
        voxel(7.0, vec![1]),
    ];
    let tree = build_cluster_tree(&voxels);
    assert_eq!(tree.size, 4);
    assert_eq!(tree.voxel_indices, vec![1]);
    let first = tree.parent_cluster_1.as_ref().unwrap();
    let second = tree.parent_cluster_2.as_ref().unwrap();
    // the branch that was set aside last has lost its last node twice
    assert_eq!(first.voxel_indices, Vec::<usize>::new());
    assert_eq!(first.size, 2);
    assert_eq!(second.voxel_indices, vec![2]);
    assert_eq!(second.size, 1);
    let steps = libtfce::tfce::fill_clusters(tree);
    let mut seen: Vec<usize> = steps.iter().map(|s| s.voxel).collect();
    seen.sort();
    assert_eq!(seen, vec![0, 1, 2, 3]);
}

#[test]
fn build_clusters_of_a_disconnected_graph_stay_in_one_component() {
    let voxels = vec![
        voxel(1.0, vec![1]),
        voxel(2.0, vec![0]),
        voxel(1.5, vec![]),
    ];
    assert_eq!(
        build_cluster_tree(&voxels),
        Cluster {
            voxel_indices: vec![1, 0],
            size: 2,
            parent_cluster_1: None,
            parent_cluster_2: None
        }
    );
}

fn count_nodes(cluster: &Cluster, seen: &mut Vec<usize>) -> usize {
    let mut n = cluster.voxel_indices.len();
    seen.extend(cluster.voxel_indices.iter());
    if let Some(c) = &cluster.parent_cluster_1 {
        n += count_nodes(c, seen);
    }
    if let Some(c) = &cluster.parent_cluster_2 {
        n += count_nodes(c, seen);
    }
    assert_eq!(cluster.size, n);
    n
}

fn scrambled(n: usize, seed: u64) -> Vec<f64> {
    let mut state = seed;
    (0..n)
        .map(|_| {
            state = state.wrapping_mul(6364136223846793005).wrapping_add(1442695040888963407);
            ((state >> 33) % 1000) as f64 / 1000.0
        })
        .collect()
}

#[test]
fn size_conservation_on_chains_and_grids() {
    for n in [2usize, 3, 10, 257] {
        let mut voxels = libtfce::field::generate_1d_field(n);
        for (v, value) in voxels.iter_mut().zip(scrambled(n, n as u64)) {
            v.value = key(value);
        }
        let tree = build_cluster_tree(&voxels);
        assert_eq!(tree.size, n);
        let mut seen = Vec::new();
        assert_eq!(count_nodes(&tree, &mut seen), n);
        seen.sort();
        assert_eq!(seen, (0..n).collect::<Vec<usize>>());
    }
    for width in [2usize, 5, 30] {
        let mut voxels = libtfce::field::generate_2d8c_field(width);
        let n = width * width;
        for (v, value) in voxels.iter_mut().zip(scrambled(n, 7 + n as u64)) {
            v.value = key(value);
        }
        let tree = build_cluster_tree(&voxels);
        assert_eq!(tree.size, n);
        let mut seen = Vec::new();
        assert_eq!(count_nodes(&tree, &mut seen), n);
        seen.sort();
        assert_eq!(seen, (0..n).collect::<Vec<usize>>());
    }
}

#[test]
fn size_conservation_on_a_large_chain() {
    let n = 10_000;
    let mut voxels = libtfce::field::generate_1d_field(n);
    for (v, value) in voxels.iter_mut().zip(scrambled(n, 99)) {
        v.value = key(value);
    }
    let tree = build_cluster_tree(&voxels);
    assert_eq!(tree.size, n);
    assert_eq!(libtfce::tfce::tfce(&voxels).len(), n);
}

#[test]
fn building_twice_gives_the_same_tree() {
    let mut voxels = libtfce::field::generate_2d4c_field(12);
    for (v, value) in voxels.iter_mut().zip(scrambled(144, 5)) {
        v.value = key(value);
    }
    assert_eq!(build_cluster_tree(&voxels), build_cluster_tree(&voxels));
    assert_eq!(libtfce::tfce::tfce(&voxels), libtfce::tfce::tfce(&voxels));
}

#[test]
fn spines_do_not_rise() {
    fn check(cluster: &Cluster, voxels: &Vec<Voxel>) {
        for pair in cluster.voxel_indices.windows(2) {
            assert!(voxels[pair[0]].value >= voxels[pair[1]].value);
        }
        if let Some(c) = &cluster.parent_cluster_1 {
            check(c, voxels);
        }
        if let Some(c) = &cluster.parent_cluster_2 {
            check(c, voxels);
        }
    }
    let mut voxels = libtfce::field::generate_2d8c_field(9);
    for (v, value) in voxels.iter_mut().zip(scrambled(81, 3)) {
        v.value = key(value);
    }
    check(&build_cluster_tree(&voxels), &voxels);
}

#[test]
fn find_max_voxel_takes_the_first_of_equal_maxima() {
    let voxels = vec![
        voxel(1.0, vec![]),
        voxel(4.0, vec![]),
        voxel(-2.0, vec![]),
        voxel(4.0, vec![]),
    ];
    assert_eq!(find_max_voxel(&voxels), 1);
    assert_eq!(find_max_voxel(&vec![voxel(-1.0, vec![])]), 0);
}

#[test]
fn traverse_max_climbs_to_the_first_steepest_neighbour() {
    let voxels = vec![
        voxel(1.0, vec![1, 2, 3]),
        voxel(3.0, vec![0]),
        voxel(5.0, vec![0, 4]),
        voxel(5.0, vec![0]),
        voxel(6.0, vec![2]),
    ];
    assert_eq!(traverse_max(0, &voxels), Some(2));
    assert_eq!(traverse_max(1, &voxels), None);
    assert_eq!(traverse_max(3, &voxels), None);
    assert_eq!(traverse_max(2, &voxels), Some(4));
    assert_eq!(climb(0, &voxels), 4);
    assert_eq!(climb(1, &voxels), 1);
}

#[test]
fn negative_values_rank_below_positive_ones() {
    let voxels = vec![
        voxel(-3.0, vec![1]),
        voxel(-1.0, vec![0, 2]),
        voxel(0.0, vec![1, 3]),
        voxel(-0.5, vec![2]),
    ];
    assert_eq!(
        build_cluster_tree(&voxels),
        Cluster {
            voxel_indices: vec![2, 3, 1, 0],
            size: 4,
            parent_cluster_1: None,
            parent_cluster_2: None
        }
    );
    assert_eq!(key(0.0), libtfce::voxel::ZERO_VALUE);
    assert_eq!(key(-0.0), libtfce::voxel::ZERO_VALUE);
}

#[test]
fn only_the_order_of_the_values_counts() {
    let values = scrambled(100, 11);
    let mut by_value = libtfce::field::generate_2d8c_field(10);
    let mut by_rank = libtfce::field::generate_2d8c_field(10);
    let mut sorted = values.clone();
    sorted.sort_by(|a, b| a.partial_cmp(b).unwrap());
    sorted.dedup();
    for i in 0..100 {
        by_value[i].value = key(values[i]);
        by_rank[i].value = sorted.iter().position(|v| *v == values[i]).unwrap() as u64 * 7 + 3;
    }
    assert_eq!(build_cluster_tree(&by_value), build_cluster_tree(&by_rank));
    assert_eq!(libtfce::tfce::tfce(&by_value), libtfce::tfce::tfce(&by_rank));
}
