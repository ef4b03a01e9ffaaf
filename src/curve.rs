//! Belief curves over the unit square, in fixed point.
//!
//! A coordinate is an integer `v` that stands for the real number `v / SCALE`.
//! `SCALE` is a multiple of the pixel spans of the drawing area and of the
//! proportion grid's step, so that those maps are exact.
use vstd::prelude::*;

verus! {

/// Denominator of every coordinate: `v` stands for `v / SCALE`.
pub const SCALE: u64 = 31_437_000;

/// Canonical units per horizontal pixel (`SCALE / 450`).
pub const X_PER_PIXEL: i64 = 69_860;

/// Canonical units per vertical pixel (`SCALE / 420`).
pub const Y_PER_PIXEL: i64 = 74_850;

/// A point `(x, y)` of a curve, both coordinates in units of `1 / SCALE`.
pub type Point = (u64, u64);

pub open spec fn in_unit(p: Point) -> bool {
    p.0 <= SCALE && p.1 <= SCALE
}

/// A CDF shape: every point in the unit square, x strictly increasing and y
/// non-decreasing from each point to the next.
pub open spec fn is_cdf(s: Seq<Point>) -> bool {
    &&& forall|i: int| 0 <= i < s.len() ==> in_unit(#[trigger] s[i])
    &&& forall|i: int|
        #![trigger s[i], s[i + 1]]
        0 <= i < s.len() - 1 ==> s[i].0 < s[i + 1].0 && s[i].1 <= s[i + 1].1
}

/// A value cut to the closed interval `[0, SCALE]`.
pub open spec fn clamp_unit(v: int) -> u64 {
    if v < 0 {
        0
    } else if v > SCALE {
        SCALE as u64
    } else {
        v as u64
    }
}

/// Horizontal pixel `raw` of the drawing area as a proportion: `(raw - 50) / 450`.
pub open spec fn canonical_x(raw: int) -> u64 {
    clamp_unit((raw - 50) * X_PER_PIXEL)
}

/// Vertical pixel `raw` of the drawing area as a probability: `(450 - raw) / 420`.
pub open spec fn canonical_y(raw: int) -> u64 {
    clamp_unit((450 - raw) * Y_PER_PIXEL)
}

pub open spec fn min_u(a: u64, b: u64) -> u64 {
    if a <= b { a } else { b }
}

pub open spec fn max_u(a: u64, b: u64) -> u64 {
    if a >= b { a } else { b }
}

/// Every point of `s` with its y raised to at least `y`.
pub open spec fn raised(s: Seq<Point>, y: u64) -> Seq<Point> {
    s.map_values(|p: Point| (p.0, max_u(p.1, y)))
}

/// `s` with the point `(x, y)` put in its place by x: points left of it are
/// lowered to at most `y`, points right of it raised to at least `y`, and a
/// point at the same x is replaced.
pub open spec fn inserted(s: Seq<Point>, x: u64, y: u64) -> Seq<Point>
    decreases s.len(),
{
    if s.len() == 0 {
        seq![(x, y)]
    } else if s[0].0 < x {
        seq![(s[0].0, min_u(s[0].1, y))] + inserted(s.drop_first(), x, y)
    } else if s[0].0 == x {
        seq![(x, y)] + raised(s.drop_first(), y)
    } else {
        seq![(x, y)] + raised(s, y)
    }
}

/// An ordered piecewise-linear belief curve over `[0, 1] x [0, 1]`.
pub struct ProgressCurve {
    pub points: Vec<Point>,
}

impl View for ProgressCurve {
    type V = Seq<Point>;

    open spec fn view(&self) -> Seq<Point> {
        self.points@
    }
}

/// The curve's linear interpolation between `a` and `b` at `p`, rounded down.
pub open spec fn interpolate(a: Point, b: Point, p: int) -> int {
    a.1 + (p - a.0) * (b.1 - a.1) / (b.0 - a.0)
}

/// The value of the piecewise-linear curve through `s` at `p`, taken on the
/// first segment whose x-range holds `p`; none where no segment does.
pub open spec fn lookup(s: Seq<Point>, p: int) -> Option<int>
    decreases s.len(),
{
    if s.len() < 2 {
        None
    } else if s[0].0 <= p <= s[1].0 {
        Some(interpolate(s[0], s[1], p))
    } else {
        lookup(s.drop_first(), p)
    }
}

impl ProgressCurve {
    pub open spec fn wf(&self) -> bool {
        is_cdf(self@)
    }

    /// The curve from `(0, 0)` to `(1, 1)`: no belief recorded yet.
    pub fn new() -> (r: ProgressCurve)
        ensures
            r@ == seq![(0u64, 0u64), (SCALE, SCALE)],
            r.wf(),
    {
        let r = ProgressCurve { points: vec![(0, 0), (SCALE, SCALE)] };
        assert(r@ =~= seq![(0u64, 0u64), (SCALE, SCALE)]);
        r
    }

    /// Takes `points` as a curve when they have a CDF shape.
    pub fn from_points(points: Vec<Point>) -> (r: Option<ProgressCurve>)
        ensures
            r is Some <==> is_cdf(points@),
            r matches Some(c) ==> c@ == points@,
    {
        let n = points.len();
        let mut i: usize = 0;
        while i < n
            invariant
                n == points@.len(),
                0 <= i <= n,
                forall|j: int| 0 <= j < i ==> in_unit(#[trigger] points@[j]),
                forall|j: int|
                    #![trigger points@[j], points@[j + 1]]
                    0 <= j < i && j + 1 < n ==> points@[j].0 < points@[j + 1].0 && points@[j].1
                        <= points@[j + 1].1,
            decreases n - i,
        {
            let p = points[i];
            if p.0 > SCALE || p.1 > SCALE {
                assert(!in_unit(points@[i as int]));
                return None;
            }
            if i + 1 < n {
                let q = points[i + 1];
                if !(p.0 < q.0 && p.1 <= q.1) {
                    assert(!(points@[i as int].0 < points@[i + 1].0 && points@[i as int].1 <= points@[i + 1].1));
                    return None;
                }
            }
            i += 1;
        }
        Some(ProgressCurve { points })
    }

    /// The probability that the curve gives to `portion` (cut to at most 1), by
    /// linear interpolation between the two points around it; `None` where no
    /// pair of neighbouring points brackets it.
    pub fn probability_at(&self, portion: u64) -> (r: Option<u64>)
        requires
            self.wf(),
        ensures
            r matches Some(v) ==> lookup(self@, min_u(portion, SCALE) as int) == Some(v as int) && v <= SCALE,
            r is None <==> lookup(self@, min_u(portion, SCALE) as int) is None,
    {
        let p = if portion > SCALE { SCALE } else { portion };
        let pts = &self.points;
        let n = pts.len();
        if n < 2 {
            return None;
        }
        let mut i: usize = 0;
        assert(pts@.skip(0) =~= pts@);
        while i < n - 1
            invariant
                n == pts@.len(),
                n >= 2,
                0 <= i <= n - 1,
                is_cdf(pts@),
                p == min_u(portion, SCALE),
                pts@ == self@,
                lookup(pts@, p as int) == lookup(pts@.skip(i as int), p as int),
            decreases n - i,
        {
            let (x1, y1) = pts[i];
            let (x2, y2) = pts[i + 1];
            let ghost t = pts@.skip(i as int);
            assert(t[0] == pts@[i as int] && t[1] == pts@[i + 1]);
            if x1 <= p && p <= x2 {
                assert(x1 < x2 && y1 <= y2);
                assert(in_unit(pts@[i + 1]));
                let w = x2 - x1;
                let d = y2 - y1;
                let off = p - x1;
                proof {
                    vstd::arithmetic::mul::lemma_mul_inequality(off as int, w as int, d as int);
                    vstd::arithmetic::mul::lemma_mul_upper_bound(off as int, SCALE as int, d as int, SCALE as int);
                    vstd::arithmetic::div_mod::lemma_div_is_ordered(off * d, w * d, w as int);
                    vstd::arithmetic::div_mod::lemma_div_by_multiple(d as int, w as int);
                    assert(w * d == d * w) by (nonlinear_arith);
                }
                let v = y1 + off * d / w;
                assert(t.len() >= 2);
                assert(v as int == interpolate(t[0], t[1], p as int));
                assert(lookup(t, p as int) == Some(interpolate(t[0], t[1], p as int)));
                assert(p == min_u(portion, SCALE));
                return Some(v);
            }
            assert(t.drop_first() =~= pts@.skip(i + 1));
            i += 1;
        }
        assert(pts@.skip(i as int).len() == 1);
        None
    }
}

fn clamp_exec(v: i64) -> (r: u64)
    ensures
        r == clamp_unit(v as int),
{
    if v < 0 {
        0
    } else if v > SCALE as i64 {
        SCALE
    } else {
        v as u64
    }
}

/// Maps a pixel of the drawing area to canonical coordinates, clamped to the
/// unit square.
pub fn canonical_point(raw_x: i32, raw_y: i32) -> (r: Point)
    ensures
        r == (canonical_x(raw_x as int), canonical_y(raw_y as int)),
{
    let cx = clamp_exec((raw_x as i64 - 50) * X_PER_PIXEL);
    let cy = clamp_exec((450 - raw_y as i64) * Y_PER_PIXEL);
    (cx, cy)
}


proof fn lemma_raised_cdf(s: Seq<Point>, y: u64)
    requires
        is_cdf(s),
        y <= SCALE,
    ensures
        is_cdf(raised(s, y)),
        raised(s, y).len() == s.len(),
        forall|i: int| 0 <= i < s.len() ==> #[trigger] raised(s, y)[i] == (s[i].0, max_u(s[i].1, y)),
{
    let r = raised(s, y);
    assert forall|i: int| #![trigger r[i], r[i + 1]] 0 <= i < r.len() - 1 implies r[i].0 < r[i + 1].0 && r[i].1 <= r[i + 1].1 by {
        assert(s[i].0 < s[i + 1].0 && s[i].1 <= s[i + 1].1);
    }
}

proof fn lemma_cons_cdf(a: Point, t: Seq<Point>)
    requires
        is_cdf(t),
        in_unit(a),
        t.len() > 0 ==> a.0 < t[0].0 && a.1 <= t[0].1,
    ensures
        is_cdf(seq![a] + t),
{
    let r = seq![a] + t;
    assert forall|i: int| 0 <= i < r.len() implies in_unit(#[trigger] r[i]) by {
        if i > 0 {
            assert(r[i] == t[i - 1]);
        }
    }
    assert forall|i: int| #![trigger r[i], r[i + 1]] 0 <= i < r.len() - 1 implies r[i].0 < r[i + 1].0 && r[i].1 <= r[i + 1].1 by {
        if i > 0 {
            assert(r[i] == t[i - 1] && r[i + 1] == t[i]);
            let j = i - 1;
            assert(t[j].0 < t[j + 1].0 && t[j].1 <= t[j + 1].1);
        } else {
            assert(r[0] == a && r[1] == t[0]);
        }
    }
}

proof fn lemma_inserted_cdf(s: Seq<Point>, x: u64, y: u64)
    requires
        is_cdf(s),
        x <= SCALE,
        y <= SCALE,
    ensures
        is_cdf(inserted(s, x, y)),
        inserted(s, x, y).len() > 0,
        inserted(s, x, y)[0] == (if s.len() > 0 && s[0].0 < x {
            (s[0].0, min_u(s[0].1, y))
        } else {
            (x, y)
        }),
    decreases s.len(),
{
    if s.len() == 0 {
        lemma_cons_cdf((x, y), Seq::empty());
        assert(seq![(x, y)] + Seq::<Point>::empty() =~= seq![(x, y)]);
    } else {
        let rest = s.drop_first();
        assert forall|i: int| #![trigger rest[i], rest[i + 1]] 0 <= i < rest.len() - 1 implies rest[i].0 < rest[i + 1].0 && rest[i].1 <= rest[i + 1].1 by {
            assert(rest[i] == s[i + 1] && rest[i + 1] == s[i + 2]);
        }
        assert(is_cdf(rest));
        if s[0].0 < x {
            lemma_inserted_cdf(rest, x, y);
            if rest.len() > 0 {
                assert(s[0].0 < s[1].0 && s[0].1 <= s[1].1);
            }
            lemma_cons_cdf((s[0].0, min_u(s[0].1, y)), inserted(rest, x, y));
        } else if s[0].0 == x {
            lemma_raised_cdf(rest, y);
            if rest.len() > 0 {
                assert(s[0].0 < s[1].0);
            }
            lemma_cons_cdf((x, y), raised(rest, y));
        } else {
            lemma_raised_cdf(s, y);
            lemma_cons_cdf((x, y), raised(s, y));
        }
    }
}

proof fn lemma_raised_twice(s: Seq<Point>, y: u64)
    ensures
        raised(raised(s, y), y) == raised(s, y),
{
    assert(raised(raised(s, y), y) =~= raised(s, y));
}

proof fn lemma_inserted_twice(s: Seq<Point>, x: u64, y: u64)
    ensures
        inserted(inserted(s, x, y), x, y) == inserted(s, x, y),
    decreases s.len(),
{
    let t = inserted(s, x, y);
    if s.len() == 0 {
        assert(t.drop_first() =~= Seq::<Point>::empty());
        assert(inserted(t, x, y) =~= t);
    } else if s[0].0 < x {
        let rest = s.drop_first();
        lemma_inserted_twice(rest, x, y);
        assert(t.drop_first() =~= inserted(rest, x, y));
        assert(inserted(t, x, y) =~= t);
    } else if s[0].0 == x {
        lemma_raised_twice(s.drop_first(), y);
        assert(t.drop_first() =~= raised(s.drop_first(), y));
        assert(inserted(t, x, y) =~= t);
    } else {
        lemma_raised_twice(s, y);
        assert(t.drop_first() =~= raised(s, y));
        assert(inserted(t, x, y) =~= t);
    }
}

proof fn lemma_inserted_step(s: Seq<Point>, i: int, x: u64, y: u64)
    requires
        0 <= i < s.len(),
        s[i].0 < x,
    ensures
        inserted(s.skip(i), x, y) == seq![(s[i].0, min_u(s[i].1, y))] + inserted(s.skip(i + 1), x, y),
{
    assert(s.skip(i).drop_first() =~= s.skip(i + 1));
}

proof fn lemma_raised_step(s: Seq<Point>, i: int, y: u64)
    requires
        0 <= i < s.len(),
    ensures
        raised(s.skip(i), y) == seq![(s[i].0, max_u(s[i].1, y))] + raised(s.skip(i + 1), y),
{
    assert(raised(s.skip(i), y) =~= seq![(s[i].0, max_u(s[i].1, y))] + raised(s.skip(i + 1), y));
}

/// Adds the point at pixel `(raw_x, raw_y)` of the drawing area to `curve`.
///
/// The pixel is mapped to the unit square and clamped into it; points left of
/// the new one are lowered to its y at most, points right of it raised to its
/// y at least, and a point at the same x is replaced. The result is again a
/// CDF shape.
pub fn add_point(curve: &ProgressCurve, raw_x: i32, raw_y: i32) -> (r: ProgressCurve)
    requires
        curve.wf(),
    ensures
        r@ == inserted(curve@, canonical_x(raw_x as int), canonical_y(raw_y as int)),
        r.wf(),
{
    let (x, y) = canonical_point(raw_x, raw_y);
    let pts = &curve.points;
    let n = pts.len();
    let mut out: Vec<Point> = Vec::new();
    let mut i: usize = 0;
    assert(pts@.skip(0) =~= pts@);
    while i < n && pts[i].0 < x
        invariant
            0 <= i <= n,
            n == pts@.len(),
            inserted(pts@, x, y) == out@ + inserted(pts@.skip(i as int), x, y),
        decreases n - i,
    {
        let p = pts[i];
        let low = if p.1 < y { p.1 } else { y };
        proof {
            lemma_inserted_step(pts@, i as int, x, y);
        }
        assert(out@.push((p.0, low)) + inserted(pts@.skip(i + 1), x, y) =~= out@ + (seq![(p.0, low)] + inserted(pts@.skip(i + 1), x, y)));
        out.push((p.0, low));
        i += 1;
    }
    out.push((x, y));
    if i < n && pts[i].0 == x {
        assert(pts@.skip(i as int).drop_first() =~= pts@.skip(i + 1));
        i += 1;
    } else if i == n {
        assert(pts@.skip(i as int) =~= Seq::<Point>::empty());
        assert(raised(pts@.skip(i as int), y) =~= Seq::<Point>::empty());
    }
    assert(inserted(pts@, x, y) =~= out@ + raised(pts@.skip(i as int), y));
    while i < n
        invariant
            0 <= i <= n,
            n == pts@.len(),
            inserted(pts@, x, y) == out@ + raised(pts@.skip(i as int), y),
        decreases n - i,
    {
        let p = pts[i];
        let high = if p.1 < y { y } else { p.1 };
        proof {
            lemma_raised_step(pts@, i as int, y);
        }
        assert(out@.push((p.0, high)) + raised(pts@.skip(i + 1), y) =~= out@ + (seq![(p.0, high)] + raised(pts@.skip(i + 1), y)));
        out.push((p.0, high));
        i += 1;
    }
    assert(raised(pts@.skip(n as int), y) =~= Seq::<Point>::empty());
    assert(out@ =~= inserted(pts@, x, y));
    proof {
        lemma_inserted_cdf(pts@, x, y);
    }
    ProgressCurve { points: out }
}


proof fn lemma_inserted_in_unit(s: Seq<Point>, x: u64, y: u64)
    requires
        forall|i: int| 0 <= i < s.len() ==> in_unit(#[trigger] s[i]),
        x <= SCALE,
        y <= SCALE,
    ensures
        forall|i: int| 0 <= i < inserted(s, x, y).len() ==> in_unit(#[trigger] inserted(s, x, y)[i]),
    decreases s.len(),
{
    let r = inserted(s, x, y);
    if s.len() > 0 {
        let rest = s.drop_first();
        assert forall|i: int| 0 <= i < rest.len() implies in_unit(#[trigger] rest[i]) by {
            assert(rest[i] == s[i + 1]);
        }
        assert(in_unit(s[0]));
        if s[0].0 < x {
            lemma_inserted_in_unit(rest, x, y);
            assert forall|i: int| 0 <= i < r.len() implies in_unit(#[trigger] r[i]) by {
                if i > 0 {
                    assert(r[i] == inserted(rest, x, y)[i - 1]);
                }
            }
        } else {
            let tail = if s[0].0 == x { rest } else { s };
            assert forall|i: int| 0 <= i < r.len() implies in_unit(#[trigger] r[i]) by {
                if i > 0 {
                    assert(r[i] == raised(tail, y)[i - 1]);
                    assert(in_unit(tail[i - 1]));
                }
            }
        }
    }
}

/// The curve after the clicks `clicks` (pixels of the drawing area) are added
/// one after another to `s`.
pub open spec fn inserted_all(s: Seq<Point>, clicks: Seq<(i32, i32)>) -> Seq<Point>
    decreases clicks.len(),
{
    if clicks.len() == 0 {
        s
    } else {
        inserted_all(
            inserted(s, canonical_x(clicks[0].0 as int), canonical_y(clicks[0].1 as int)),
            clicks.drop_first(),
        )
    }
}

/// Starting from any curve of CDF shape, every sequence of added points
/// leaves a curve of CDF shape: x strictly increasing and y non-decreasing.
pub proof fn insertions_keep_cdf(s: Seq<Point>, clicks: Seq<(i32, i32)>)
    requires
        is_cdf(s),
    ensures
        is_cdf(inserted_all(s, clicks)),
    decreases clicks.len(),
{
    if clicks.len() > 0 {
        let x = canonical_x(clicks[0].0 as int);
        let y = canonical_y(clicks[0].1 as int);
        lemma_inserted_cdf(s, x, y);
        insertions_keep_cdf(inserted(s, x, y), clicks.drop_first());
    }
}

/// Adding the same pixel twice in a row gives the curve that adding it once
/// gives.
pub proof fn insert_twice_is_insert_once(s: Seq<Point>, raw_x: i32, raw_y: i32)
    ensures
        ({
            let x = canonical_x(raw_x as int);
            let y = canonical_y(raw_y as int);
            inserted(inserted(s, x, y), x, y) == inserted(s, x, y)
        }),
{
    lemma_inserted_twice(s, canonical_x(raw_x as int), canonical_y(raw_y as int));
}

/// A curve whose first point lies at proportion 0 and whose last lies at
/// proportion 1 gives a probability to every proportion in between.
pub proof fn anchored_curve_covers_unit(s: Seq<Point>, p: u64)
    requires
        s.len() >= 2,
        s[0].0 == 0,
        s.last().0 == SCALE,
        p <= SCALE,
    ensures
        lookup(s, p as int) is Some,
{
    lemma_lookup_within(s, p);
}

proof fn lemma_lookup_within(s: Seq<Point>, p: u64)
    requires
        s.len() >= 2,
        s[0].0 <= p <= s.last().0,
    ensures
        lookup(s, p as int) is Some,
    decreases s.len(),
{
    if !(s[0].0 <= p && p <= s[1].0) {
        let rest = s.drop_first();
        assert(rest.last() == s.last());
        lemma_lookup_within(rest, p);
    }
}

/// Whatever pixel is added, however far outside the drawing area, every
/// coordinate of the result lies in the unit square.
pub proof fn insert_stays_in_unit_square(s: Seq<Point>, raw_x: i32, raw_y: i32)
    requires
        forall|i: int| 0 <= i < s.len() ==> in_unit(#[trigger] s[i]),
    ensures
        ({
            let r = inserted(s, canonical_x(raw_x as int), canonical_y(raw_y as int));
            forall|i: int| 0 <= i < r.len() ==> in_unit(#[trigger] r[i])
        }),
{
    lemma_inserted_in_unit(s, canonical_x(raw_x as int), canonical_y(raw_y as int));
}

} // verus!
