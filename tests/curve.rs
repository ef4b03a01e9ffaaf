use insight_progress::{add_point, canonical_point, ProgressCurve, SCALE};

const HALF: u64 = SCALE / 2;

fn is_cdf(c: &ProgressCurve) -> bool {
    let p = &c.points;
    p.iter().all(|&(x, y)| x <= SCALE && y <= SCALE)
        && p.windows(2).all(|w| w[0].0 < w[1].0 && w[0].1 <= w[1].1)
}

fn middle_curve() -> ProgressCurve {
    ProgressCurve::from_points(vec![(0, 0), (HALF, HALF), (SCALE, SCALE)]).unwrap()
}

#[test]
fn pixel_corners_map_to_unit_square_corners() {
    assert_eq!(canonical_point(50, 450), (0, 0));
    assert_eq!(canonical_point(500, 30), (SCALE, SCALE));
    assert_eq!(canonical_point(275, 240), (HALF, HALF));
}

#[test]
fn pixel_step_is_exact() {
    assert_eq!(canonical_point(51, 449), (69_860, 74_850));
}

#[test]
fn default_curve_is_diagonal() {
    let c = ProgressCurve::new();
    assert_eq!(c.points, vec![(0, 0), (SCALE, SCALE)]);
}

#[test]
fn insert_in_middle_of_default() {
    let c = add_point(&ProgressCurve::new(), 275, 240);
    assert_eq!(c.points, vec![(0, 0), (HALF, HALF), (SCALE, SCALE)]);
}

#[test]
fn insert_high_point_raises_right_side() {
    let c = add_point(&middle_curve(), 140, 30);
    assert_eq!(c.points, vec![(0, 0), (6_287_400, SCALE), (HALF, SCALE), (SCALE, SCALE)]);
}

#[test]
fn insert_low_point_lowers_left_side() {
    let c = add_point(&middle_curve(), 410, 450);
    assert_eq!(c.points, vec![(0, 0), (HALF, 0), (25_149_600, 0), (SCALE, SCALE)]);
}

#[test]
fn insert_at_existing_x_replaces() {
    let c = add_point(&middle_curve(), 275, 450);
    assert_eq!(c.points, vec![(0, 0), (HALF, 0), (SCALE, SCALE)]);
}

#[test]
fn insert_twice_equals_insert_once() {
    let once = add_point(&middle_curve(), 140, 100);
    let twice = add_point(&once, 140, 100);
    assert_eq!(once.points, twice.points);
}

#[test]
fn far_outside_points_are_clamped() {
    let c = add_point(&middle_curve(), -1_000_000, 1_000_000);
    assert_eq!(c.points, vec![(0, 0), (HALF, HALF), (SCALE, SCALE)]);
    let d = add_point(&middle_curve(), i32::MAX, i32::MIN);
    assert_eq!(d.points, vec![(0, 0), (HALF, HALF), (SCALE, SCALE)]);
    let e = add_point(&middle_curve(), i32::MIN, i32::MIN);
    assert_eq!(e.points, vec![(0, SCALE), (HALF, SCALE), (SCALE, SCALE)]);
    assert!(is_cdf(&e));
}

#[test]
fn random_insertions_keep_cdf_shape() {
    let mut seed: u64 = 12345;
    let mut c = ProgressCurve::new();
    for _ in 0..300 {
        seed = seed.wrapping_mul(6364136223846793005).wrapping_add(1442695040888963407);
        let rx = ((seed >> 33) % 700) as i32 - 100;
        seed = seed.wrapping_mul(6364136223846793005).wrapping_add(1442695040888963407);
        let ry = ((seed >> 33) % 700) as i32 - 100;
        c = add_point(&c, rx, ry);
        assert!(is_cdf(&c));
    }
}

#[test]
fn from_points_refuses_bad_shapes() {
    assert!(ProgressCurve::from_points(vec![(0, 0), (0, 1)]).is_none());
    assert!(ProgressCurve::from_points(vec![(0, 5), (1, 4)]).is_none());
    assert!(ProgressCurve::from_points(vec![(0, SCALE + 1)]).is_none());
    assert!(ProgressCurve::from_points(vec![]).is_some());
}

#[test]
fn probability_interpolates() {
    let c = ProgressCurve::new();
    assert_eq!(c.probability_at(HALF), Some(HALF));
    assert_eq!(c.probability_at(0), Some(0));
    assert_eq!(c.probability_at(SCALE + 7), Some(SCALE));
    let d = ProgressCurve::from_points(vec![(0, 0), (10, 100)]).unwrap();
    assert_eq!(d.probability_at(3), Some(30));
    let e = ProgressCurve::from_points(vec![(0, 0), (3, 1)]).unwrap();
    assert_eq!(e.probability_at(2), Some(0));
}

#[test]
fn probability_outside_curve_is_none() {
    let c = ProgressCurve::from_points(vec![(10, 0), (20, 5)]).unwrap();
    assert_eq!(c.probability_at(5), None);
    let single = ProgressCurve::from_points(vec![(0, 0)]).unwrap();
    assert_eq!(single.probability_at(0), None);
}

#[test]
fn anchored_curve_answers_every_portion() {
    let mut c = ProgressCurve::new();
    for (rx, ry) in [(140, 100), (300, 400), (60, 200), (480, 35)] {
        c = add_point(&c, rx, ry);
    }
    assert_eq!(c.points[0].0, 0);
    assert_eq!(c.points[c.points.len() - 1].0, SCALE);
    for k in 0..=1000u64 {
        let v = c.probability_at(k * (SCALE / 1000));
        assert!(matches!(v, Some(p) if p <= SCALE));
    }
}
