use libtfce::field::{generate_1d_field, generate_2d8c_field};
use libtfce::tfce::{build_cluster_tree, fill_clusters, get_clusters, tfce, Cluster, FillStep};
use libtfce::voxel::Voxel;
use rand::{Rng, SeedableRng, StdRng};

fn key(v: f64) -> u64 {
    let v = v + 0.0;
    let bits = v.to_bits();
    if bits >> 63 == 1 {
        !bits
    } else {
        bits | (1u64 << 63)
    }
}

fn with_values(mut voxels: Vec<Voxel>, values: &[f64]) -> Vec<Voxel> {
    for (v, value) in voxels.iter_mut().zip(values.iter()) {
        v.value = key(*value);
    }
    voxels
}

/// The enhanced values along the plan.
fn enhance(voxels: &Vec<Voxel>, values: &[f64], e: f64, h: f64) -> Vec<f64> {
    let mut enhanced = vec![0.0; values.len()];
    for step in tfce(voxels) {
        let (prev_value, prev_enhanced) = match step.previous {
            Some(p) => (values[p], enhanced[p]),
            None => (0.0, 0.0),
        };
        let h1 = h + 1.0;
        enhanced[step.voxel] = prev_enhanced
            + (step.size as f64).powf(e) * ((values[step.voxel].powf(h1) - prev_value.powf(h1)) / h1);
    }
    enhanced
}

/// The threshold sweep with extent 2/3 and height 2.
fn approximate(voxels: &Vec<Voxel>, values: &[f64], steps: i32) -> Vec<f64> {
    let mut enhanced = vec![0.0; values.len()];
    let max_value = values.iter().cloned().fold(0.0, f64::max);
    let delta = max_value / (steps as f64);
    let mut t = 0.0;
    while t < max_value {
        for cluster in get_clusters(voxels, key(t)) {
            let increase =
                (cluster.len() as f64).powf(2.0 / 3.0) * (t + delta / 2.0).powf(2.0) * delta;
            for i in cluster {
                enhanced[i] += increase;
            }
        }
        t += delta;
    }
    enhanced
}

fn random_values(n: usize, min: f64, max: f64, seed: &[usize]) -> Vec<f64> {
    let mut rng = StdRng::from_seed(seed);
    (0..n).map(|_| rng.gen_range(min, max)).collect()
}

#[test]
fn test_approximate_tfce() {
    let values = random_values(6, 0.0, 1.0, &[17556, 31771, 29830, 29830]);
    let voxels = with_values(generate_1d_field(6), &values);
    let enhanced = approximate(&voxels, &values, 50);
    println!("{:?}", values);
    println!("{:?}", enhanced);
    assert_eq!(enhanced.len(), 6);
    assert!(enhanced.iter().all(|v| *v >= 0.0));
}

#[test]
fn fill_plan_of_a_single_spine() {
    let tree = Cluster {
        voxel_indices: vec![2, 1, 0],
        size: 3,
        parent_cluster_1: None,
        parent_cluster_2: None,
    };
    assert_eq!(
        fill_clusters(tree),
        vec![
            FillStep { voxel: 0, size: 3, previous: None },
            FillStep { voxel: 1, size: 2, previous: Some(0) },
            FillStep { voxel: 2, size: 1, previous: Some(1) },
        ]
    );
}

#[test]
fn fill_plan_takes_the_second_child_first() {
    let tree = Cluster {
        voxel_indices: vec![2],
        size: 5,
        parent_cluster_1: Some(Box::new(Cluster {
            voxel_indices: vec![0, 1],
            size: 2,
            parent_cluster_1: None,
            parent_cluster_2: None,
        })),
        parent_cluster_2: Some(Box::new(Cluster {
            voxel_indices: vec![3, 4],
            size: 2,
            parent_cluster_1: None,
            parent_cluster_2: None,
        })),
    };
    assert_eq!(
        fill_clusters(tree),
        vec![
            FillStep { voxel: 2, size: 5, previous: None },
            FillStep { voxel: 4, size: 2, previous: Some(2) },
            FillStep { voxel: 3, size: 1, previous: Some(4) },
            FillStep { voxel: 1, size: 2, previous: Some(2) },
            FillStep { voxel: 0, size: 1, previous: Some(1) },
        ]
    );
}

#[test]
fn fill_plan_passes_an_empty_spine_by() {
    let tree = Cluster {
        voxel_indices: vec![1],
        size: 3,
        parent_cluster_1: Some(Box::new(Cluster {
            voxel_indices: vec![],
            size: 1,
            parent_cluster_1: Some(Box::new(Cluster {
                voxel_indices: vec![0],
                size: 1,
                parent_cluster_1: None,
                parent_cluster_2: None,
            })),
            parent_cluster_2: None,
        })),
        parent_cluster_2: Some(Box::new(Cluster {
            voxel_indices: vec![2],
            size: 1,
            parent_cluster_1: None,
            parent_cluster_2: None,
        })),
    };
    assert_eq!(
        fill_clusters(tree),
        vec![
            FillStep { voxel: 1, size: 3, previous: None },
            FillStep { voxel: 2, size: 1, previous: Some(1) },
            FillStep { voxel: 0, size: 1, previous: Some(1) },
        ]
    );
}

#[test]
fn each_step_continues_from_an_earlier_one() {
    let values = random_values(100, 0.0, 1.0, &[17556, 31771, 29830, 29831]);
    let voxels = with_values(generate_2d8c_field(10), &values);
    let steps = tfce(&voxels);
    assert_eq!(steps.len(), 100);
    let mut done = vec![false; 100];
    for step in steps {
        if let Some(p) = step.previous {
            assert!(done[p]);
            assert!(values[p] <= values[step.voxel]);
        }
        assert!(!done[step.voxel]);
        assert!(step.size >= 1);
        done[step.voxel] = true;
    }
    assert!(done.iter().all(|d| *d));
}

#[test]
fn enhanced_value_of_a_single_node() {
    let voxels = vec![Voxel::new(key(2.0), vec![])];
    let enhanced = enhance(&voxels, &[2.0], 0.5, 2.0);
    assert!((enhanced[0] - 8.0 / 3.0).abs() < 1e-12);
}

#[test]
fn enhanced_values_of_a_chain_with_a_peak() {
    // values 3, 2, 1, 2.5 on a path, extent 1, height 1:
    // node 2: 4 * (1 - 0) / 2 = 2
    // node 1: 2 + 2 * (4 - 1) / 2 = 5; node 0: 5 + 1 * (9 - 4) / 2 = 7.5
    // node 3: 2 + 1 * (6.25 - 1) / 2 = 4.625
    let values = [3.0, 2.0, 1.0, 2.5];
    let voxels = with_values(generate_1d_field(4), &values);
    let enhanced = enhance(&voxels, &values, 1.0, 1.0);
    assert!((enhanced[2] - 2.0).abs() < 1e-12);
    assert!((enhanced[1] - 5.0).abs() < 1e-12);
    assert!((enhanced[0] - 7.5).abs() < 1e-12);
    assert!((enhanced[3] - 4.625).abs() < 1e-12);
}

#[test]
fn approximation_converges_to_the_exact_transform() {
    for x in [29830usize, 29831] {
        let values = random_values(100, 0.0, 1.0, &[17556, 31771, 29830, x]);
        let voxels = with_values(generate_2d8c_field(10), &values);
        let approx = approximate(&voxels, &values, 10000);
        let exact = enhance(&voxels, &values, 2.0 / 3.0, 2.0);
        for n in 0..values.len() {
            assert!((approx[n] - exact[n]).abs() <= 1e-3, "difference at x = {}", x);
        }
    }
}

#[test]
fn the_tree_of_the_plan_is_the_built_tree() {
    let values = [3.0, 2.0, 1.0, 2.5, 2.0];
    let voxels = with_values(generate_1d_field(5), &values);
    assert_eq!(tfce(&voxels), fill_clusters(build_cluster_tree(&voxels)));
}

#[test]
fn plan_sizes_are_the_cluster_sizes_at_the_thresholds() {
    for (width, seed) in [(6usize, 1usize), (10, 2), (13, 3)] {
        let n = width * width;
        // few distinct values, so that many nodes tie
        let values: Vec<f64> = random_values(n, 0.0, 1.0, &[17556, 31771, 29830, seed])
            .into_iter()
            .map(|v| (v * 12.0).floor() / 12.0 + 0.25)
            .collect();
        let voxels = with_values(generate_2d8c_field(width), &values);
        let mut checked = 0;
        for step in tfce(&voxels) {
            let floor = step.previous.map(|p| voxels[p].value).unwrap_or(0);
            let value = voxels[step.voxel].value;
            if floor < value {
                for threshold in [value, floor + 1] {
                    let clusters = get_clusters(&voxels, threshold);
                    let cluster = clusters.iter().find(|c| c.contains(&step.voxel)).unwrap();
                    assert_eq!(cluster.len(), step.size);
                    checked += 1;
                }
            }
        }
        assert!(checked > 0);
    }
}
