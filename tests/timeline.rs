use insight_progress::{projection_end, timeline_points, ProgressCurve, SCALE};

#[test]
fn projection_drops_early_years_and_reverses() {
    let c = ProgressCurve::new();
    let implied = vec![(2100, SCALE / 4), (2050, SCALE / 2), (2010, SCALE)];
    let pts = timeline_points(&c, &implied).unwrap();
    assert_eq!(pts, vec![(2050, SCALE - SCALE / 2), (2100, SCALE - SCALE / 4)]);
}

#[test]
fn projection_fails_where_curve_is_silent() {
    let c = ProgressCurve::from_points(vec![(10, 0), (20, 5)]).unwrap();
    assert_eq!(timeline_points(&c, &vec![(2030, 15), (2040, 0)]), None);
}

#[test]
fn projection_end_is_capped_by_last_year() {
    assert_eq!(projection_end(2200, &vec![(2050, 1), (2100, 2)]), Some(2100));
    assert_eq!(projection_end(2080, &vec![(2050, 1), (2100, 2)]), Some(2080));
    assert_eq!(projection_end(2080, &vec![]), None);
}
