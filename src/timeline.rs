//! The implied timeline: for each proportion, the year in which the fitted
//! model reaches the count that proportion implies, paired with the belief
//! curve's probability of being further along than it.
use crate::curve::{lookup, min_u, ProgressCurve, SCALE};
use vstd::prelude::*;

verus! {

/// First year that the projection shows.
pub const PROJECTION_START: i32 = 2020;

/// One projected point: a year, and the probability (in units of `1 / SCALE`)
/// that the threshold is reached by then.
pub type YearPoint = (i32, u64);

/// The projection of `implied` (pairs of an implied year and a proportion) on
/// the curve `s`, in reverse order, without years before `PROJECTION_START`;
/// none when the curve gives no probability to some proportion.
pub open spec fn projected(s: Seq<(u64, u64)>, implied: Seq<(i32, u64)>) -> Option<Seq<YearPoint>>
    decreases implied.len(),
{
    if implied.len() == 0 {
        Some(Seq::empty())
    } else {
        match (lookup(s, min_u(implied[0].1, SCALE) as int), projected(s, implied.drop_first())) {
            (Some(v), Some(rest)) => Some(
                if implied[0].0 >= PROJECTION_START {
                    rest.push((implied[0].0, (SCALE - v) as u64))
                } else {
                    rest
                },
            ),
            _ => None,
        }
    }
}

/// Projects the implied years on the belief curve: each pair `(year,
/// portion)` becomes `(year, 1 - probability at portion)`; years before
/// `PROJECTION_START` are left out, and the points come in reverse order.
pub fn timeline_points(curve: &ProgressCurve, implied: &Vec<(i32, u64)>) -> (r: Option<Vec<YearPoint>>)
    requires
        curve.wf(),
    ensures
        match r {
            Some(v) => projected(curve@, implied@) == Some(v@),
            None => projected(curve@, implied@) is None,
        },
{
    let n = implied.len();
    let mut out: Vec<YearPoint> = Vec::new();
    let mut k: usize = n;
    assert(implied@.skip(n as int) =~= Seq::<(i32, u64)>::empty());
    while k > 0
        invariant
            n == implied@.len(),
            0 <= k <= n,
            curve.wf(),
            projected(curve@, implied@.skip(k as int)) == Some(out@),
        decreases k,
    {
        let (year, portion) = implied[k - 1];
        assert(implied@.skip(k - 1).drop_first() =~= implied@.skip(k as int));
        assert(implied@.skip(k - 1)[0] == implied@[k - 1]);
        match curve.probability_at(portion) {
            Some(v) => {
                if year >= PROJECTION_START {
                    out.push((year, SCALE - v));
                }
            },
            None => {
                proof {
                    lemma_projected_none(curve@, implied@, k as int);
                }
                return None;
            },
        }
        k -= 1;
    }
    assert(implied@.skip(0) =~= implied@);
    Some(out)
}

proof fn lemma_projected_none(s: Seq<(u64, u64)>, implied: Seq<(i32, u64)>, k: int)
    requires
        0 < k <= implied.len(),
        lookup(s, min_u(implied[k - 1].1, SCALE) as int) is None,
    ensures
        projected(s, implied) is None,
    decreases k,
{
    assert(implied.skip(k - 1)[0] == implied[k - 1]);
    assert(projected(s, implied.skip(k - 1)) is None);
    lemma_projected_none_prefix(s, implied, k - 1);
}

proof fn lemma_projected_none_prefix(s: Seq<(u64, u64)>, implied: Seq<(i32, u64)>, k: int)
    requires
        0 <= k <= implied.len(),
        projected(s, implied.skip(k)) is None,
    ensures
        projected(s, implied) is None,
    decreases k,
{
    if k > 0 {
        assert(implied.skip(k - 1).drop_first() =~= implied.skip(k));
        lemma_projected_none_prefix(s, implied, k - 1);
    } else {
        assert(implied.skip(0) =~= implied);
    }
}

/// The last year to show: `max_year`, but no later than the latest year in
/// the projection, which is its last point; none for an empty projection.
pub fn projection_end(max_year: i32, points: &Vec<YearPoint>) -> (r: Option<i32>)
    ensures
        points@.len() == 0 ==> r is None,
        points@.len() > 0 ==> r == Some(if points@.last().0 < max_year {
            points@.last().0
        } else {
            max_year
        }),
{
    if points.len() == 0 {
        return None;
    }
    let last_year = points[points.len() - 1].0;
    Some(if last_year < max_year { last_year } else { max_year })
}

} // verus!
