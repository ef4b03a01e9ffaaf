//! Verified core of a model of progress towards a threshold of cumulative
//! discoveries: a belief curve over proportions that stays a CDF under edits,
//! the empirical curve of a rejection sampler, the bookkeeping of the
//! historical series that the regression layer fits, and the implied
//! timeline.
pub mod curve;
pub mod fit;
pub mod sampler;
pub mod timeline;

pub use curve::{add_point, canonical_point, Point, ProgressCurve, SCALE};
pub use fit::{check_fit_input, make_sub_cum, Entry, FitError, RegMode, MIN_FIT_POINTS};
pub use sampler::{
    check_request, empirical_curve, DistMode, SampleError, SampleRun, ThresholdTable, GRID_LEN,
    MAX_ATTEMPTS,
};
pub use timeline::{projection_end, timeline_points, YearPoint, PROJECTION_START};
