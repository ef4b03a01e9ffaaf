use insight_progress::{check_fit_input, make_sub_cum, FitError, RegMode};

fn doubling() -> Vec<(i16, u8)> {
    vec![(1950, 1), (1960, 2), (1970, 4), (1980, 8), (1990, 16), (2000, 32)]
}

#[test]
fn four_entries_are_insufficient_for_every_mode() {
    let s = vec![(1950, 1), (1960, 2), (1970, 4), (1980, 8)];
    for mode in [RegMode::Linear, RegMode::Exponential, RegMode::Sigmoidal] {
        assert_eq!(check_fit_input(mode, &s), Err(FitError::InsufficientData));
    }
}

#[test]
fn five_entries_suffice() {
    let s = make_sub_cum(&doubling(), 1950, 1990);
    assert_eq!(s.len(), 5);
    for mode in [RegMode::Linear, RegMode::Exponential, RegMode::Sigmoidal] {
        assert_eq!(check_fit_input(mode, &s), Ok(()));
    }
}

#[test]
fn zero_count_refused_for_exponential_only() {
    let s = vec![(1940, 0), (1950, 1), (1960, 2), (1970, 4), (1980, 8)];
    assert_eq!(check_fit_input(RegMode::Exponential, &s), Err(FitError::Degenerate));
    assert_eq!(check_fit_input(RegMode::Linear, &s), Ok(()));
    assert_eq!(check_fit_input(RegMode::Sigmoidal, &s), Ok(()));
}

#[test]
fn window_takes_years_in_range() {
    let s = doubling();
    assert_eq!(make_sub_cum(&s, 1955, 1985), vec![(1960, 2), (1970, 4), (1980, 8)]);
    assert_eq!(make_sub_cum(&s, 1900, 2100), s);
    assert_eq!(make_sub_cum(&s, 1970, 1970), vec![(1970, 4)]);
    assert_eq!(make_sub_cum(&s, 2001, 2100), vec![]);
    assert_eq!(make_sub_cum(&s, 1990, 1950), vec![]);
}
