use insight_progress::{
    check_request, empirical_curve, DistMode, SampleError, SampleRun, ThresholdTable, GRID_LEN,
    MAX_ATTEMPTS, SCALE,
};

#[test]
fn invalid_parameters_are_refused() {
    assert_eq!(check_request(10, DistMode::Q(0)), Err(SampleError::InvalidParameter));
    assert_eq!(check_request(10, DistMode::Q(SCALE)), Err(SampleError::InvalidParameter));
    assert_eq!(check_request(10, DistMode::Beta(0, 5)), Err(SampleError::InvalidParameter));
    assert_eq!(check_request(10, DistMode::Beta(5, 0)), Err(SampleError::InvalidParameter));
    assert_eq!(check_request(0, DistMode::Q(0)), Err(SampleError::InvalidParameter));
}

#[test]
fn zero_samples_is_invalid_argument() {
    assert_eq!(check_request(0, DistMode::Uniform), Err(SampleError::InvalidArgument));
    assert!(SampleRun::start(32, 0, DistMode::Q(SCALE / 2)).is_err());
}

#[test]
fn valid_requests_pass() {
    assert_eq!(check_request(1, DistMode::Uniform), Ok(()));
    assert_eq!(check_request(1000, DistMode::Q(SCALE / 2)), Ok(()));
    assert_eq!(check_request(5, DistMode::Beta(1, 1)), Ok(()));
}

#[test]
fn offers_keep_only_candidates_above_known_count() {
    let mut run = SampleRun::start(32, 2, DistMode::Uniform).unwrap();
    assert_eq!(run.offer(32), Ok(false));
    assert_eq!(run.offer(10), Ok(false));
    assert_eq!(run.attempts, 2);
    assert_eq!(run.offer(33), Ok(true));
    assert_eq!(run.attempts, 0);
    assert!(!run.is_done());
    assert_eq!(run.offer(u64::MAX), Ok(true));
    assert!(run.is_done());
    assert_eq!(run.samples, vec![33, u64::MAX]);
}

#[test]
fn run_gives_up_after_too_many_rejections() {
    let mut run = SampleRun::start(32, 1, DistMode::Q(SCALE / 2)).unwrap();
    for _ in 0..MAX_ATTEMPTS - 1 {
        assert_eq!(run.offer(1), Ok(false));
    }
    assert_eq!(run.offer(1), Err(SampleError::SamplingExhausted));
    assert!(run.samples.is_empty());
}

#[test]
fn grid_matches_fixed_schedule() {
    let samples: Vec<u64> = (0..1000u64).map(|k| 33 + k * 7).collect();
    let c = empirical_curve(&samples, &ThresholdTable::new(32));
    assert_eq!(c.points.len(), GRID_LEN);
    for (i, &(x, y)) in c.points.iter().enumerate() {
        assert_eq!(x, 63 * (2495 + 994 * i as u64));
        assert!(y <= SCALE);
    }
    assert_eq!(c.points[0].0 * 200, SCALE);
    assert_eq!(c.points[GRID_LEN - 1].0 * 1000, SCALE * 999);
}

#[test]
fn huge_samples_reach_every_point() {
    let c = empirical_curve(&vec![u64::MAX], &ThresholdTable::new(32));
    assert!(c.points.iter().all(|&(_, y)| y == SCALE));
}

#[test]
fn sample_at_twice_known_count_reaches_half_and_beyond() {
    let c = empirical_curve(&vec![64, 1_000_000], &ThresholdTable::new(32));
    for &(x, y) in &c.points {
        if 2 * x >= SCALE {
            assert_eq!(y, SCALE);
        } else {
            assert_eq!(y, SCALE / 2);
        }
    }
}

#[test]
fn empirical_curve_is_non_decreasing() {
    let samples: Vec<u64> = (0..300u64).map(|k| 33 + (k * k * 37) % 5000).collect();
    let c = empirical_curve(&samples, &ThresholdTable::new(32));
    assert!(c.points.windows(2).all(|w| w[0].0 < w[1].0 && w[0].1 <= w[1].1));
}

#[test]
fn same_candidates_give_same_curve() {
    let candidates: Vec<u64> = (0..500u64).map(|k| (k * 7919) % 400).collect();
    let run_once = || {
        let mut run = SampleRun::start(32, 100, DistMode::Uniform).unwrap();
        for &c in &candidates {
            if run.is_done() {
                break;
            }
            run.offer(c).unwrap();
        }
        assert!(run.is_done());
        run.finish(&ThresholdTable::new(32))
    };
    assert_eq!(run_once().points, run_once().points);
}

#[test]
fn thresholds_round_up_known_count_over_proportion() {
    let t = ThresholdTable::new(32);
    assert_eq!(t.counts.len(), GRID_LEN);
    assert_eq!(t.counts[0], 6400);
    assert_eq!(t.counts[GRID_LEN - 1], 33);
    assert!(t.counts.windows(2).all(|w| w[0] >= w[1]));
}

#[test]
fn sample_equal_to_threshold_reaches_it() {
    let c = empirical_curve(&vec![6400], &ThresholdTable::new(32));
    assert_eq!(c.points[0].1, SCALE);
    let d = empirical_curve(&vec![6399], &ThresholdTable::new(32));
    assert_eq!(d.points[0].1, 0);
}
