use libtfce::permutation::{
    greatest_value, significance_cutoff, significance_mask, significant_indices, Permutation,
};
use libtfce::voxel::ZERO_VALUE;

fn key(v: f64) -> u64 {
    let v = v + 0.0;
    let bits = v.to_bits();
    if bits >> 63 == 1 {
        !bits
    } else {
        bits | (1u64 << 63)
    }
}

#[test]
fn significant_indices_lists_the_flagged_positions() {
    assert_eq!(
        significant_indices(&vec![false, true, true, false, true]),
        vec![1, 2, 4]
    );
    assert_eq!(significant_indices(&vec![false, false]), Vec::<usize>::new());
    assert_eq!(significant_indices(&vec![]), Vec::<usize>::new());
    assert_eq!(significant_indices(&vec![true]), vec![0]);
}

#[test]
fn greatest_value_is_at_least_zero() {
    assert_eq!(greatest_value(&vec![key(0.5), key(2.0), key(1.0)]), key(2.0));
    assert_eq!(greatest_value(&vec![key(-0.5), key(-2.0)]), ZERO_VALUE);
    assert_eq!(greatest_value(&vec![]), ZERO_VALUE);
}

#[test]
fn cutoff_is_the_value_at_ninety_five_hundredths() {
    // 20 draws: place 19 in ascending order
    let distribution: Vec<u64> = (0..20).map(|n| ((n * 7) % 20) as u64 * 10).collect();
    assert_eq!(significance_cutoff(distribution), 190);
    // 100 draws: place 95
    let distribution: Vec<u64> = (0..100).rev().collect();
    assert_eq!(significance_cutoff(distribution), 95);
    // 1 draw: place 0; 21 draws: place 19; 39 draws: place 37
    assert_eq!(significance_cutoff(vec![8]), 8);
    assert_eq!(significance_cutoff((0..21).rev().collect()), 19);
    assert_eq!(significance_cutoff((0..39).rev().collect()), 37);
    for n in 1..400usize {
        let place = ((n as f64) * 0.95).floor() as u64;
        assert_eq!(significance_cutoff((0..n as u64).rev().collect()), place);
    }
}

#[test]
fn mask_flags_the_values_that_reach_the_cutoff() {
    assert_eq!(
        significance_mask(&vec![key(1.0), key(3.0), key(2.0), key(-1.0)], key(2.0)),
        vec![false, true, true, false]
    );
    assert_eq!(significance_mask(&vec![], 5), Vec::<bool>::new());
}

#[test]
fn permutation_draws_one_label_for_each_subject() {
    let mut run = Permutation::new(12, 4);
    assert!(!run.is_complete());
    let mut seen_true = false;
    let mut seen_false = false;
    for _ in 0..4 {
        let keep = run.draw();
        assert_eq!(keep.len(), 12);
        seen_true |= keep.iter().any(|k| *k);
        seen_false |= keep.iter().any(|k| !*k);
        assert!(!run.is_complete());
        run.record(&vec![key(1.0)]);
    }
    assert!(seen_true && seen_false);
    assert!(run.is_complete());
}

#[test]
fn permutation_with_its_fixed_seed_repeats_itself() {
    let mut first = Permutation::new(30, 5);
    let mut second = Permutation::new(30, 5);
    for _ in 0..5 {
        assert_eq!(first.draw(), second.draw());
    }
}

#[test]
fn permutation_flags_against_the_recorded_distribution() {
    let mut run = Permutation::new(3, 20);
    for n in 0..20 {
        run.draw();
        run.record(&vec![key(n as f64), key(-3.0), key(n as f64 / 2.0)]);
    }
    assert!(run.is_complete());
    // the cutoff is the greatest of the twenty maxima, 19
    assert_eq!(
        run.finish(&vec![key(18.5), key(19.0), key(25.0), key(0.0)]),
        vec![false, true, true, false]
    );
}

#[test]
fn a_null_distribution_of_zeros_flags_everything_that_is_not_negative() {
    let mut run = Permutation::new(2, 3);
    for _ in 0..3 {
        run.draw();
        run.record(&vec![key(-1.0), key(-2.0)]);
    }
    assert_eq!(run.finish(&vec![key(0.0), key(-0.1), key(0.1)]), vec![true, false, true]);
}

#[test]
fn run_permutation_asks_for_each_draw_and_for_the_unpermuted_labels() {
    let calls = std::cell::RefCell::new(Vec::new());
    let mask = libtfce::permutation::run_permutation(5, 20, |keep: &Vec<bool>| {
        calls.borrow_mut().push(keep.clone());
        let swapped = keep.iter().filter(|k| !**k).count() as f64;
        // the unpermuted labels give the greatest value of all, at the first node
        vec![key(5.0 - swapped), key(-1.0), key(4.5 - swapped)]
    });
    let calls = calls.into_inner();
    assert_eq!(calls.len(), 21);
    assert!(calls.iter().all(|keep| keep.len() == 5));
    assert_eq!(calls[20], vec![true; 5]);
    assert!(calls[..20].iter().any(|keep| keep.iter().any(|k| !*k)));
    let cutoff = {
        let mut maxima: Vec<f64> = calls[..20]
            .iter()
            .map(|keep| 5.0 - keep.iter().filter(|k| !**k).count() as f64)
            .collect();
        maxima.sort_by(|a, b| a.partial_cmp(b).unwrap());
        maxima[19]
    };
    assert_eq!(mask, vec![5.0 >= cutoff, false, 4.5 >= cutoff]);
    assert!(mask[0]);
}

#[test]
fn run_permutation_repeats_itself() {
    let run = || {
        let calls = std::cell::RefCell::new(Vec::new());
        let mask = libtfce::permutation::run_permutation(8, 10, |keep: &Vec<bool>| {
            calls.borrow_mut().push(keep.clone());
            keep.iter().enumerate().map(|(i, k)| key(if *k { i as f64 } else { 0.5 })).collect()
        });
        (calls.into_inner(), mask)
    };
    assert_eq!(run(), run());
}
