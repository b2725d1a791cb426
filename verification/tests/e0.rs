use annp::e0::{
    crossing, log_spaced, measurement_floor, rank_buckets, trial_seed, usable, Sampling,
    CAPACITY_STEP, RETENTION_STEP,
};

fn spaced(max: u64, count: usize) -> Vec<u64> {
    let raw: Vec<u64> = (0..count)
        .map(|i| {
            let f = i as f64 / (count - 1) as f64;
            (max as f64).powf(f).round() as u64
        })
        .collect();
    log_spaced(&raw, max)
}

#[test]
fn log_spaced_is_ascending_and_bounded() {
    let v = spaced(30_000, 48);
    assert_eq!(v[0], 1);
    assert_eq!(*v.last().unwrap(), 30_000);
    assert!(v.windows(2).all(|w| w[0] < w[1]));
}

#[test]
fn rank_buckets_tile_the_range_exactly() {
    let raw: Vec<u64> = (0..=10)
        .map(|i| (2000f64).powf(i as f64 / 10.0).round() as u64)
        .collect();
    let b = rank_buckets(&raw, 2000);
    assert_eq!(b[0].0, 0);
    assert_eq!(b.last().unwrap().1, 2000);
    assert!(
        b.windows(2).all(|w| w[0].1 == w[1].0),
        "buckets must be contiguous"
    );
}

#[test]
fn measurement_floor_finds_where_the_signal_dies() {
    let ages = [1u64, 10, 100, 1000, 10000];
    let mean = [5.0, 3.0, 1.0, 0.05, -0.2];
    let stderr = [0.1, 0.1, 0.1, 0.1, 0.1];
    let dead = |mean: &[f64]| -> Vec<bool> {
        mean.iter()
            .zip(stderr)
            .map(|(m, s): (&f64, f64)| *m < 3.0 * s.max(1e-300))
            .collect()
    };
    assert_eq!(measurement_floor(&ages, &dead(&mean)), 1000);
    assert_eq!(measurement_floor(&ages, &dead(&[5.0; 5])), 10000);
}

#[test]
fn a_curve_is_crossed_where_it_first_falls() {
    assert_eq!(crossing(&[false, false, false, true]), Some(3));
    assert_eq!(crossing(&[true, false, true, true]), Some(2));
    assert_eq!(crossing(&[true, true]), None);
    assert_eq!(crossing(&[]), None);
}

#[test]
fn ages_are_held_within_the_horizon() {
    assert_eq!(log_spaced(&[0, 1, 1, 5, 9, 12], 9), vec![1, 5, 9]);
}

#[test]
fn empty_buckets_are_left_out() {
    assert_eq!(rank_buckets(&[1, 1, 2, 4], 4), vec![(0, 1), (1, 2), (2, 4)]);
    assert_eq!(rank_buckets(&[1], 1), Vec::<(u64, u64)>::new());
}

#[test]
fn every_age_is_looked_at_once() {
    let mut s = Sampling::new(vec![1, 4, 9]);
    let due: Vec<bool> = (1..=9).map(|_| s.tick()).collect();
    assert_eq!(
        due,
        vec![true, false, false, true, false, false, false, false, true]
    );
}

#[test]
fn trials_have_seeds_of_their_own() {
    assert_eq!(trial_seed(42, 0, RETENTION_STEP), 42);
    assert_eq!(trial_seed(42, 1, RETENTION_STEP), 42 ^ 0x9E37_79B9);
    assert_eq!(
        trial_seed(7, u64::MAX, CAPACITY_STEP),
        7 ^ u64::MAX.wrapping_mul(0x85EB_CA6B)
    );
}

#[test]
fn the_usable_rank_is_the_highest_strong_one() {
    let b = [(0u64, 3u64), (3, 8), (8, 20)];
    assert_eq!(usable(&b, &[true, false, true]), 20);
    assert_eq!(usable(&b, &[true, true, false]), 8);
    assert_eq!(usable(&b, &[false, false, false]), 0);
}
