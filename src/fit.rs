//! The historical series that the regression layer fits: the window of years
//! under study, and which series a fit may be attempted on.
use vstd::prelude::*;

verus! {

/// Fewest entries a series must hold before any model is fitted to it.
pub const MIN_FIT_POINTS: usize = 5;

/// One entry of the historical series: a year and the cumulative count of
/// discoveries by then.
pub type Entry = (i16, u8);

/// Which model to fit the series to.
#[derive(Clone, Copy, Debug, PartialEq, Eq)]
pub enum RegMode {
    Linear,
    Exponential,
    Sigmoidal,
}

#[derive(Clone, Copy, Debug, PartialEq, Eq)]
pub enum FitError {
    /// Fewer than `MIN_FIT_POINTS` entries.
    InsufficientData,
    /// The entries admit no fit of the model: a zero count has no logarithm,
    /// or the regression is singular.
    Degenerate,
}

/// Whether some entry of `series` has a count of zero.
pub open spec fn has_zero_count(series: Seq<Entry>) -> bool {
    exists|i: int| 0 <= i < series.len() && (#[trigger] series[i]).1 == 0
}

/// What a fit of `mode` to `series` meets before any arithmetic: too short a
/// series for every model; a zero count for the exponential model, which
/// fits the logarithms of the counts.
pub open spec fn fit_input_result(mode: RegMode, series: Seq<Entry>) -> Result<(), FitError> {
    if series.len() < MIN_FIT_POINTS {
        Err(FitError::InsufficientData)
    } else if mode == RegMode::Exponential && has_zero_count(series) {
        Err(FitError::Degenerate)
    } else {
        Ok(())
    }
}

/// Checks that a fit of `mode` may be attempted on `series`.
pub fn check_fit_input(mode: RegMode, series: &Vec<Entry>) -> (r: Result<(), FitError>)
    ensures
        r == fit_input_result(mode, series@),
{
    if series.len() < MIN_FIT_POINTS {
        return Err(FitError::InsufficientData);
    }
    if let RegMode::Exponential = mode {
        let mut i: usize = 0;
        while i < series.len()
            invariant
                0 <= i <= series@.len(),
                series@.len() >= MIN_FIT_POINTS,
                mode == RegMode::Exponential,
                forall|j: int| 0 <= j < i ==> (#[trigger] series@[j]).1 != 0,
            decreases series@.len() - i,
        {
            if series[i].1 == 0 {
                assert(series@[i as int].1 == 0);
                return Err(FitError::Degenerate);
            }
            i += 1;
        }
    }
    Ok(())
}

/// Every model refuses a series shorter than `MIN_FIT_POINTS` with
/// `InsufficientData`.
pub proof fn short_series_refused(mode: RegMode, series: Seq<Entry>)
    requires
        series.len() < MIN_FIT_POINTS,
    ensures
        fit_input_result(mode, series) == Err::<(), FitError>(FitError::InsufficientData),
{
}

/// `series` from its first entry whose year is at least `year_min` on.
pub open spec fn skip_before(series: Seq<Entry>, year_min: i16) -> Seq<Entry>
    decreases series.len(),
{
    if series.len() == 0 || series[0].0 >= year_min {
        series
    } else {
        skip_before(series.drop_first(), year_min)
    }
}

/// The leading entries of `series` whose years are at most `year_max`.
pub open spec fn take_through(series: Seq<Entry>, year_max: i16) -> Seq<Entry>
    decreases series.len(),
{
    if series.len() == 0 || series[0].0 > year_max {
        Seq::empty()
    } else {
        seq![series[0]] + take_through(series.drop_first(), year_max)
    }
}

/// The part of `series` between `year_min` and `year_max`.
pub open spec fn window(series: Seq<Entry>, year_min: i16, year_max: i16) -> Seq<Entry> {
    take_through(skip_before(series, year_min), year_max)
}

/// Whether the years of `series` strictly increase.
pub open spec fn years_increase(series: Seq<Entry>) -> bool {
    forall|i: int, j: int| 0 <= i < j < series.len() ==> series[i].0 < series[j].0
}

/// Takes the entries of `series` from the first whose year is at least
/// `year_min`, up to the last before one whose year exceeds `year_max`.
pub fn make_sub_cum(series: &Vec<Entry>, year_min: i16, year_max: i16) -> (r: Vec<Entry>)
    ensures
        r@ == window(series@, year_min, year_max),
{
    let n = series.len();
    let mut i: usize = 0;
    assert(series@.skip(0) =~= series@);
    while i < n && series[i].0 < year_min
        invariant
            n == series@.len(),
            0 <= i <= n,
            skip_before(series@, year_min) == skip_before(series@.skip(i as int), year_min),
        decreases n - i,
    {
        assert(series@.skip(i as int).drop_first() =~= series@.skip(i + 1));
        i += 1;
    }
    let ghost start = i as int;
    assert(skip_before(series@, year_min) == series@.skip(start));
    let mut out: Vec<Entry> = Vec::new();
    while i < n && series[i].0 <= year_max
        invariant
            n == series@.len(),
            start <= i <= n,
            take_through(series@.skip(start), year_max) == out@ + take_through(series@.skip(i as int), year_max),
        decreases n - i,
    {
        assert(series@.skip(i as int).drop_first() =~= series@.skip(i + 1));
        assert(out@.push(series@[i as int]) + take_through(series@.skip(i + 1), year_max)
            =~= out@ + (seq![series@[i as int]] + take_through(series@.skip(i + 1), year_max)));
        out.push(series[i]);
        i += 1;
    }
    assert(take_through(series@.skip(i as int), year_max) =~= Seq::<Entry>::empty());
    assert(out@ =~= window(series@, year_min, year_max));
    out
}


proof fn lemma_rest_increases(series: Seq<Entry>)
    requires
        years_increase(series),
        series.len() > 0,
    ensures
        years_increase(series.drop_first()),
{
    let rest = series.drop_first();
    assert forall|i: int, j: int| 0 <= i < j < rest.len() implies rest[i].0 < rest[j].0 by {
        assert(rest[i] == series[i + 1] && rest[j] == series[j + 1]);
    }
}

proof fn lemma_skip_before(series: Seq<Entry>, year_min: i16)
    requires
        years_increase(series),
    ensures
        years_increase(skip_before(series, year_min)),
        forall|e: Entry|
            #![trigger skip_before(series, year_min).contains(e)]
            #![trigger series.contains(e)]
            skip_before(series, year_min).contains(e) <==> series.contains(e) && e.0 >= year_min,
    decreases series.len(),
{
    if series.len() > 0 {
        if series[0].0 >= year_min {
            assert forall|e: Entry| series.contains(e) implies e.0 >= year_min by {
                let i = choose|i: int| 0 <= i < series.len() && series[i] == e;
                if i > 0 {
                    assert(series[0].0 < series[i].0);
                }
            }
        } else {
            let rest = series.drop_first();
            lemma_rest_increases(series);
            lemma_skip_before(rest, year_min);
            assert forall|e: Entry| series.contains(e) && e.0 >= year_min implies rest.contains(e) by {
                let i = choose|i: int| 0 <= i < series.len() && series[i] == e;
                assert(i > 0);
                assert(rest[i - 1] == e);
            }
            assert forall|e: Entry| rest.contains(e) implies series.contains(e) by {
                let i = choose|i: int| 0 <= i < rest.len() && rest[i] == e;
                assert(series[i + 1] == e);
            }
        }
    }
}

proof fn lemma_take_through(series: Seq<Entry>, year_max: i16)
    requires
        years_increase(series),
    ensures
        forall|e: Entry|
            #![trigger take_through(series, year_max).contains(e)]
            #![trigger series.contains(e)]
            take_through(series, year_max).contains(e) <==> series.contains(e) && e.0 <= year_max,
    decreases series.len(),
{
    let t = take_through(series, year_max);
    if series.len() > 0 {
        if series[0].0 > year_max {
            assert forall|e: Entry| series.contains(e) implies e.0 > year_max by {
                let i = choose|i: int| 0 <= i < series.len() && series[i] == e;
                if i > 0 {
                    assert(series[0].0 < series[i].0);
                }
            }
        } else {
            let rest = series.drop_first();
            lemma_rest_increases(series);
            lemma_take_through(rest, year_max);
            let tr = take_through(rest, year_max);
            assert(t == seq![series[0]] + tr);
            assert forall|e: Entry| t.contains(e) implies series.contains(e) && e.0 <= year_max by {
                let i = choose|i: int| 0 <= i < t.len() && t[i] == e;
                if i > 0 {
                    assert(tr[i - 1] == e);
                    assert(tr.contains(e));
                    assert(rest.contains(e) && e.0 <= year_max);
                    let j = choose|j: int| 0 <= j < rest.len() && rest[j] == e;
                    assert(series[j + 1] == e);
                } else {
                    assert(series[0] == e);
                }
            }
            assert forall|e: Entry| series.contains(e) && e.0 <= year_max implies t.contains(e) by {
                let i = choose|i: int| 0 <= i < series.len() && series[i] == e;
                if i > 0 {
                    assert(rest[i - 1] == e);
                    assert(tr.contains(e));
                    let j = choose|j: int| 0 <= j < tr.len() && tr[j] == e;
                    assert(t[j + 1] == e);
                } else {
                    assert(t[0] == e);
                }
            }
        }
    }
}

/// For a series whose years strictly increase, the window holds exactly the
/// entries whose years lie between `year_min` and `year_max`.
pub proof fn window_is_year_range(series: Seq<Entry>, year_min: i16, year_max: i16)
    requires
        years_increase(series),
    ensures
        forall|e: Entry|
            window(series, year_min, year_max).contains(e) <==> series.contains(e) && year_min
                <= e.0 <= year_max,
{
    lemma_skip_before(series, year_min);
    lemma_take_through(skip_before(series, year_min), year_max);
}

} // verus!
