//! The rejection sampler's bookkeeping and the empirical curve it yields.
//!
//! The draws themselves (a mixture parameter, an exponential, a power of two)
//! are real-valued and come from outside; each arrives here as a candidate
//! total count, the draw rounded down to whole discoveries.
use crate::curve::{in_unit, is_cdf, Point, ProgressCurve, SCALE};
use vstd::prelude::*;

verus! {

/// Number of proportions in the grid of the empirical curve.
pub const GRID_LEN: usize = 500;

/// Rejected candidates in a row after which a run gives up.
pub const MAX_ATTEMPTS: u64 = 1_000_000;

/// The grid's first proportion, 0.005, in units of `1 / 499000`.
pub const GRID_FIRST: u64 = 2495;

/// The grid's step, 0.994 / 499, in units of `1 / 499000`.
pub const GRID_STEP: u64 = 994;

/// `SCALE / 499000`: canonical units per unit of the grid's numerator.
pub const GRID_UNIT: u64 = 63;

/// The `i`-th proportion of the grid, `0.005 + i * 0.994 / 499`, in units of
/// `1 / SCALE`; the grid runs from 0.005 to 0.999 inclusive.
pub open spec fn grid_x(i: int) -> int {
    GRID_UNIT * (GRID_FIRST + GRID_STEP * i)
}

/// Which family the mixture parameter `q` of each draw comes from. Parameters
/// are fixed-point reals in units of `1 / SCALE`.
#[derive(Clone, Copy, Debug, PartialEq, Eq)]
pub enum DistMode {
    /// `q` drawn afresh for each attempt, uniformly from `[0.001, 1)`.
    Uniform,
    /// One fixed `q`, which must lie strictly between 0 and 1.
    Q(u64),
    /// `q` drawn afresh for each attempt from `Beta(alpha, beta)`; both positive.
    Beta(u64, u64),
}

#[derive(Clone, Copy, Debug, PartialEq, Eq)]
pub enum SampleError {
    /// The distribution's parameters describe no distribution.
    InvalidParameter,
    /// No samples were asked for.
    InvalidArgument,
    /// Too many candidates in a row fell at or below the known count.
    SamplingExhausted,
}

pub open spec fn valid_mode(mode: DistMode) -> bool {
    match mode {
        DistMode::Uniform => true,
        DistMode::Q(q) => 0 < q < SCALE,
        DistMode::Beta(a, b) => a > 0 && b > 0,
    }
}

/// What a request for `n_samps` samples from `mode` meets: parameters are
/// checked first, then the number of samples.
pub open spec fn request_result(n_samps: usize, mode: DistMode) -> Result<(), SampleError> {
    if !valid_mode(mode) {
        Err(SampleError::InvalidParameter)
    } else if n_samps == 0 {
        Err(SampleError::InvalidArgument)
    } else {
        Ok(())
    }
}

/// Checks a request for `n_samps` samples from `mode`.
pub fn check_request(n_samps: usize, mode: DistMode) -> (r: Result<(), SampleError>)
    ensures
        r == request_result(n_samps, mode),
{
    let ok = match mode {
        DistMode::Uniform => true,
        DistMode::Q(q) => 0 < q && q < SCALE,
        DistMode::Beta(a, b) => a > 0 && b > 0,
    };
    if !ok {
        Err(SampleError::InvalidParameter)
    } else if n_samps == 0 {
        Err(SampleError::InvalidArgument)
    } else {
        Ok(())
    }
}

/// A total count `c` reaches grid point `i` when `c >= last / p`, `p` being
/// the grid's proportion: that many discoveries in all would make the `last`
/// already known at most the proportion `p` of them.
pub open spec fn reaches(c: u64, last: u32, i: int) -> bool {
    c * grid_x(i) >= last * SCALE
}

/// How many of `samples` reach grid point `i`.
pub open spec fn count_reaching(samples: Seq<u64>, last: u32, i: int) -> nat
    decreases samples.len(),
{
    if samples.len() == 0 {
        0
    } else {
        count_reaching(samples.drop_last(), last, i) + if reaches(samples.last(), last, i) {
            1nat
        } else {
            0nat
        }
    }
}

/// The share `count / n` in units of `1 / SCALE`, rounded down.
pub open spec fn share(count: nat, n: nat) -> int {
    (count * SCALE) as int / n as int
}

/// The empirical curve of `samples`: at each grid proportion, the share of
/// samples that reach it.
pub open spec fn empirical(samples: Seq<u64>, last: u32) -> Seq<Point> {
    Seq::new(
        GRID_LEN as nat,
        |i: int| (grid_x(i) as u64, share(count_reaching(samples, last, i), samples.len()) as u64),
    )
}

proof fn lemma_count_bounds(samples: Seq<u64>, last: u32, i: int)
    requires
        0 <= i < GRID_LEN - 1,
    ensures
        count_reaching(samples, last, i) <= count_reaching(samples, last, i + 1),
        count_reaching(samples, last, i + 1) <= samples.len(),
    decreases samples.len(),
{
    if samples.len() > 0 {
        lemma_count_bounds(samples.drop_last(), last, i);
        let c = samples.last();
        if reaches(c, last, i) {
            vstd::arithmetic::mul::lemma_mul_inequality(grid_x(i), grid_x(i + 1), c as int);
            assert(c * grid_x(i) <= c * grid_x(i + 1)) by (nonlinear_arith)
                requires
                    grid_x(i) * c <= grid_x(i + 1) * c,
            ;
        }
    }
}

proof fn lemma_count_at_most_len(samples: Seq<u64>, last: u32, i: int)
    ensures
        count_reaching(samples, last, i) <= samples.len(),
    decreases samples.len(),
{
    if samples.len() > 0 {
        lemma_count_at_most_len(samples.drop_last(), last, i);
    }
}

proof fn lemma_share_bounds(a: nat, b: nat, n: nat)
    requires
        a <= b <= n,
        n > 0,
    ensures
        0 <= share(a, n) <= share(b, n) <= SCALE,
{
    vstd::arithmetic::mul::lemma_mul_inequality(a as int, b as int, SCALE as int);
    vstd::arithmetic::mul::lemma_mul_inequality(b as int, n as int, SCALE as int);
    vstd::arithmetic::div_mod::lemma_div_is_ordered((a * SCALE) as int, (b * SCALE) as int, n as int);
    vstd::arithmetic::div_mod::lemma_div_is_ordered((b * SCALE) as int, (n * SCALE) as int, n as int);
    vstd::arithmetic::div_mod::lemma_div_by_multiple(SCALE as int, n as int);
    assert(n * SCALE == SCALE * n) by (nonlinear_arith);
    vstd::arithmetic::div_mod::lemma_div_pos_is_pos((a * SCALE) as int, n as int);
}

/// The empirical curve of any non-empty set of samples has a CDF shape.
pub proof fn empirical_is_cdf(samples: Seq<u64>, last: u32)
    requires
        samples.len() > 0,
    ensures
        is_cdf(empirical(samples, last)),
        empirical(samples, last).len() == GRID_LEN,
{
    let e = empirical(samples, last);
    let n = samples.len();
    assert forall|i: int| 0 <= i < e.len() implies in_unit(#[trigger] e[i]) by {
        lemma_count_at_most_len(samples, last, i);
        lemma_share_bounds(count_reaching(samples, last, i), n, n);
    }
    assert forall|i: int| #![trigger e[i], e[i + 1]] 0 <= i < e.len() - 1 implies e[i].0 < e[i + 1].0
        && e[i].1 <= e[i + 1].1 by {
        lemma_count_bounds(samples, last, i);
        lemma_share_bounds(count_reaching(samples, last, i), count_reaching(samples, last, i + 1), n);
    }
}

/// `SCALE / GRID_UNIT`: the denominator of the grid's numerators.
pub const GRID_DENOM: u64 = 499_000;

/// The grid's `i`-th proportion is `grid_num(i) / GRID_DENOM`.
pub open spec fn grid_num(i: int) -> int {
    GRID_FIRST + GRID_STEP * i
}

/// The least whole count that reaches grid point `i`: `last / p` rounded up.
pub open spec fn threshold(last: u32, i: int) -> int {
    (last * GRID_DENOM + grid_num(i) - 1) / grid_num(i)
}

proof fn lemma_threshold(c: u64, last: u32, i: int)
    requires
        0 <= i < GRID_LEN,
    ensures
        reaches(c, last, i) <==> c >= threshold(last, i),
        0 <= threshold(last, i) <= last * GRID_DENOM,
{
    let d = grid_num(i);
    let l = last * GRID_DENOM;
    let t = threshold(last, i);
    vstd::arithmetic::div_mod::lemma_fundamental_div_mod(l + d - 1, d);
    let m = (l + d - 1) % d;
    assert(l + d - 1 == d * t + m);
    assert(0 <= m < d);
    vstd::arithmetic::div_mod::lemma_div_pos_is_pos(l + d - 1, d);
    assert(grid_x(i) == GRID_UNIT * d);
    assert(c * grid_x(i) == GRID_UNIT * (c * d)) by (nonlinear_arith)
        requires
            grid_x(i) == GRID_UNIT * d,
    ;
    assert(last * SCALE == GRID_UNIT * l) by (nonlinear_arith)
        requires
            l == last * GRID_DENOM,
            SCALE == GRID_UNIT * GRID_DENOM,
    ;
    if c >= t {
        vstd::arithmetic::mul::lemma_mul_inequality(t, c as int, d);
        assert(c * d >= l) by (nonlinear_arith)
            requires
                t * d <= c * d,
                l + d - 1 == d * t + m,
                m < d,
        ;
    } else {
        vstd::arithmetic::mul::lemma_mul_inequality(c as int, t - 1, d);
        assert(c * d < l) by (nonlinear_arith)
            requires
                c * d <= (t - 1) * d,
                l + d - 1 == d * t + m,
                0 <= m,
        ;
    }
    assert(t <= l) by (nonlinear_arith)
        requires
            l + d - 1 == d * t + m,
            0 <= m,
            d >= 1,
            l >= 0,
            t >= 0,
    ;
}

/// For one known count, the least whole count that reaches each grid point.
/// It depends on the known count alone, so it is built once and kept.
pub struct ThresholdTable {
    pub last: u32,
    pub counts: Vec<u64>,
}

impl ThresholdTable {
    pub open spec fn wf(&self) -> bool {
        &&& self.counts@.len() == GRID_LEN
        &&& forall|i: int| 0 <= i < GRID_LEN ==> #[trigger] self.counts@[i] == threshold(self.last, i)
    }

    /// The table for the known count `last`.
    pub fn new(last: u32) -> (r: ThresholdTable)
        ensures
            r.last == last,
            r.wf(),
    {
        let mut counts: Vec<u64> = Vec::new();
        let mut i: usize = 0;
        while i < GRID_LEN
            invariant
                0 <= i <= GRID_LEN,
                counts@.len() == i,
                forall|k: int| 0 <= k < i ==> #[trigger] counts@[k] == threshold(last, k),
            decreases GRID_LEN - i,
        {
            let d: u64 = GRID_FIRST + GRID_STEP * i as u64;
            proof {
                lemma_threshold(0, last, i as int);
            }
            counts.push((last as u64 * GRID_DENOM + d - 1) / d);
            i += 1;
        }
        ThresholdTable { last, counts }
    }
}

/// Builds the empirical curve of `samples` over the fixed proportion grid,
/// counting at each grid point the samples that reach its threshold.
pub fn empirical_curve(samples: &Vec<u64>, table: &ThresholdTable) -> (r: ProgressCurve)
    requires
        samples.len() > 0,
        table.wf(),
    ensures
        r@ == empirical(samples@, table.last),
        r.wf(),
{
    let last = table.last;
    let n = samples.len();
    let mut out: Vec<Point> = Vec::new();
    let mut i: usize = 0;
    while i < GRID_LEN
        invariant
            n == samples@.len(),
            n > 0,
            table.wf(),
            last == table.last,
            0 <= i <= GRID_LEN,
            out@.len() == i,
            forall|k: int| 0 <= k < i ==> #[trigger] out@[k] == empirical(samples@, last)[k],
        decreases GRID_LEN - i,
    {
        let g: u64 = GRID_UNIT * (GRID_FIRST + GRID_STEP * i as u64);
        let t = table.counts[i];
        let mut cnt: usize = 0;
        let mut j: usize = 0;
        assert(samples@.take(0) =~= Seq::<u64>::empty());
        while j < n
            invariant
                n == samples@.len(),
                0 <= j <= n,
                0 <= i < GRID_LEN,
                t == threshold(last, i as int),
                cnt == count_reaching(samples@.take(j as int), last, i as int),
                cnt <= j,
            decreases n - j,
        {
            assert(samples@.take(j + 1).drop_last() =~= samples@.take(j as int));
            proof {
                lemma_threshold(samples@[j as int], last, i as int);
            }
            if samples[j] >= t {
                cnt += 1;
            }
            j += 1;
        }
        assert(samples@.take(n as int) =~= samples@);
        proof {
            lemma_count_at_most_len(samples@, last, i as int);
            lemma_share_bounds(cnt as nat, n as nat, n as nat);
        }
        let y = ((cnt as u128) * (SCALE as u128) / (n as u128)) as u64;
        out.push((g, y));
        i += 1;
    }
    assert(out@ =~= empirical(samples@, last));
    proof {
        empirical_is_cdf(samples@, last);
    }
    ProgressCurve { points: out }
}

/// One sampling run: the samples accepted so far and the candidates rejected
/// since the last acceptance.
pub struct SampleRun {
    /// The count already known; a candidate must exceed it.
    pub last: u32,
    /// How many samples the run collects.
    pub target: usize,
    pub samples: Vec<u64>,
    /// Candidates rejected in a row.
    pub attempts: u64,
}

impl SampleRun {
    pub open spec fn wf(&self) -> bool {
        &&& self.target > 0
        &&& self.samples@.len() <= self.target
        &&& self.attempts < MAX_ATTEMPTS
        &&& forall|i: int| 0 <= i < self.samples@.len() ==> #[trigger] self.samples@[i] > self.last
    }

    pub open spec fn done(&self) -> bool {
        self.samples@.len() == self.target
    }

    /// Opens a run for `n_samps` samples from `mode`, when the request is valid.
    pub fn start(last: u32, n_samps: usize, mode: DistMode) -> (r: Result<SampleRun, SampleError>)
        ensures
            match r {
                Ok(run) => {
                    &&& request_result(n_samps, mode) == Ok::<(), SampleError>(())
                    &&& run.last == last
                    &&& run.target == n_samps
                    &&& run.samples@ == Seq::<u64>::empty()
                    &&& run.attempts == 0
                    &&& run.wf()
                },
                Err(e) => request_result(n_samps, mode) == Err::<(), SampleError>(e),
            },
    {
        match check_request(n_samps, mode) {
            Ok(()) => Ok(SampleRun { last, target: n_samps, samples: Vec::new(), attempts: 0 }),
            Err(e) => Err(e),
        }
    }

    /// Whether every sample has been collected.
    pub fn is_done(&self) -> (r: bool)
        ensures
            r == self.done(),
    {
        self.samples.len() == self.target
    }

    /// Offers a candidate total count. It is kept exactly when it exceeds the
    /// known count; a rejection that brings the rejections in a row to
    /// `MAX_ATTEMPTS` ends the run with `SamplingExhausted`, leaving it as it was.
    pub fn offer(&mut self, candidate: u64) -> (r: Result<bool, SampleError>)
        requires
            old(self).wf(),
            !old(self).done(),
        ensures
            final(self).last == old(self).last,
            final(self).target == old(self).target,
            candidate > old(self).last ==> {
                &&& r == Ok::<bool, SampleError>(true)
                &&& final(self).samples@ == old(self).samples@.push(candidate)
                &&& final(self).attempts == 0
            },
            candidate <= old(self).last && old(self).attempts + 1 < MAX_ATTEMPTS ==> {
                &&& r == Ok::<bool, SampleError>(false)
                &&& final(self).samples@ == old(self).samples@
                &&& final(self).attempts == old(self).attempts + 1
            },
            candidate <= old(self).last && old(self).attempts + 1 >= MAX_ATTEMPTS ==> {
                &&& r == Err::<bool, SampleError>(SampleError::SamplingExhausted)
                &&& final(self).samples@ == old(self).samples@
                &&& final(self).attempts == old(self).attempts
            },
            final(self).wf(),
    {
        if candidate > self.last as u64 {
            self.samples.push(candidate);
            self.attempts = 0;
            Ok(true)
        } else if self.attempts + 1 < MAX_ATTEMPTS {
            self.attempts = self.attempts + 1;
            Ok(false)
        } else {
            Err(SampleError::SamplingExhausted)
        }
    }

    /// The empirical curve of a finished run, from the table of its known count.
    pub fn finish(&self, table: &ThresholdTable) -> (r: ProgressCurve)
        requires
            self.wf(),
            self.done(),
            table.wf(),
            table.last == self.last,
        ensures
            r@ == empirical(self.samples@, self.last),
            r.wf(),
    {
        empirical_curve(&self.samples, table)
    }
}

} // verus!
