use libtfce::field::generate_1d_field;
use libtfce::permutation::run_permutation;
use libtfce::tfce::tfce;
use libtfce::voxel::Voxel;
use rand::{Rng, SeedableRng, StdRng};

fn key(v: f64) -> u64 {
    let v = v + 0.0;
    let bits = v.to_bits();
    if bits >> 63 == 1 {
        !bits
    } else {
        bits | (1u64 << 63)
    }
}

fn ttest_rel_vec(a: &Vec<&Vec<f64>>, b: &Vec<&Vec<f64>>) -> Vec<f64> {
    let nsubj = a.len();
    (0..a[0].len())
        .map(|i| {
            let mut sum = 0.0;
            let mut sum2 = 0.0;
            for s in 0..nsubj {
                let v = a[s][i] - b[s][i];
                sum += v;
                sum2 += v * v;
            }
            sum / ((sum2 * (nsubj as f64) - sum * sum) / ((nsubj - 1) as f64)).sqrt()
        })
        .collect()
}

fn enhanced(voxels: &mut Vec<Voxel>, statistics: &[f64], e: f64, h: f64) -> Vec<f64> {
    let values: Vec<f64> = statistics.iter().map(|t| t.abs()).collect();
    for (v, value) in voxels.iter_mut().zip(values.iter()) {
        v.value = key(*value);
    }
    let mut out = vec![0.0; values.len()];
    let h1 = h + 1.0;
    for step in tfce(voxels) {
        let (prev_value, prev_out) = match step.previous {
            Some(p) => (values[p], out[p]),
            None => (0.0, 0.0),
        };
        out[step.voxel] = prev_out
            + (step.size as f64).powf(e) * ((values[step.voxel].powf(h1) - prev_value.powf(h1)) / h1);
    }
    out
}

fn test_mask(a: &Vec<Vec<f64>>, b: &Vec<Vec<f64>>, n: i32) -> Vec<bool> {
    let voxels = std::cell::RefCell::new(generate_1d_field(a[0].len()));
    run_permutation(a.len(), n, |keep: &Vec<bool>| {
        let mut pa = Vec::new();
        let mut pb = Vec::new();
        for ((sa, sb), keep) in a.iter().zip(b.iter()).zip(keep.iter()) {
            if *keep {
                pa.push(sa);
                pb.push(sb);
            } else {
                pa.push(sb);
                pb.push(sa);
            }
        }
        let statistics = ttest_rel_vec(&pa, &pb);
        enhanced(&mut voxels.borrow_mut(), &statistics, 2.0 / 3.0, 2.0)
            .into_iter()
            .map(key)
            .collect()
    })
}

fn sample(rng: &mut StdRng, nsubj: usize, nodes: usize, shift: f64) -> Vec<Vec<f64>> {
    (0..nsubj)
        .map(|_| {
            (0..nodes)
                .map(|i| {
                    let noise: f64 = (0..6).map(|_| rng.gen_range(-1.0, 1.0)).sum();
                    noise + if i >= 10 && i < 16 { shift } else { 0.0 }
                })
                .collect()
        })
        .collect()
}

#[test]
fn a_null_dataset_is_seldom_flagged() {
    let mut rng = StdRng::from_seed(&[17556, 31771, 29830, 29830][..]);
    let trials = 60;
    let mut flagged_trials = 0;
    let mut flagged_nodes = 0;
    for _ in 0..trials {
        let a = sample(&mut rng, 10, 24, 0.0);
        let b = sample(&mut rng, 10, 24, 0.0);
        let mask = test_mask(&a, &b, 60);
        assert_eq!(mask.len(), 24);
        let count = mask.iter().filter(|m| **m).count();
        flagged_nodes += count;
        if count > 0 {
            flagged_trials += 1;
        }
    }
    // about one trial in twenty flags anything at all
    assert!(flagged_trials <= trials / 5, "{} of {} trials", flagged_trials, trials);
    assert!(flagged_nodes * 20 <= trials * 24 * 2, "{} nodes", flagged_nodes);
}

#[test]
fn a_strong_effect_is_flagged_where_it_is() {
    let mut rng = StdRng::from_seed(&[17556, 31771, 29830, 29831][..]);
    let a = sample(&mut rng, 12, 24, 6.0);
    let b = sample(&mut rng, 12, 24, 0.0);
    let mask = test_mask(&a, &b, 100);
    assert!((10..16).all(|i| mask[i]));
    assert!(!mask[0] && !mask[23]);
}

#[test]
fn the_same_data_give_the_same_mask() {
    let mut rng = StdRng::from_seed(&[17556, 31771, 29830, 29832][..]);
    let a = sample(&mut rng, 9, 24, 1.5);
    let b = sample(&mut rng, 9, 24, 0.0);
    assert_eq!(test_mask(&a, &b, 40), test_mask(&a, &b, 40));
}
