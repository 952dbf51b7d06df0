//! Tunable parameters of the extraction pipeline.
//!
//! Every numeric threshold of the engine is carried here rather than
//! hard-coded, so callers can tune the pipeline per document style.
//! `Config::default` gives the documented defaults.

use vstd::prelude::*;

verus! {

/// All thresholds that steer the extraction pipeline.
///
/// Distances are measured in pixels.  The bounds demanded by
/// [`Config::valid`] keep every intermediate computation of the
/// pipeline inside 64-bit integer arithmetic.
pub struct Config {
    /// A pixel is ink when all three of its channels are strictly
    /// below this cutoff.
    pub ink_threshold: u8,
    /// Horizontal runs shorter than this many pixels are noise.
    pub min_run_len: usize,
    /// Two runs merge when their similarity is strictly below this.
    pub merge_tolerance: i64,
    /// Flood-filled regions with at most this many pixels are noise.
    pub min_region_size: usize,
    /// Flood-filled regions with at least this many pixels are
    /// implausibly large artifacts.
    pub max_region_size: usize,
    /// A region passes the per-row linearity test when the spread of
    /// its per-row pixel counts is strictly below this.
    pub y_spread_tolerance: usize,
    /// The same bound for the per-column pixel counts.
    pub x_spread_tolerance: usize,
    /// A candidate point lies on a segment when its clamped-projection
    /// distance to the segment is strictly below this.
    pub split_distance_tolerance: i64,
    /// Adjacent split points closer than this are collapsed.
    pub min_separation: i64,
    /// Two endpoints are junction neighbours when their Manhattan
    /// distance is strictly below this.
    pub junction_tolerance: i64,
}

impl Config {
    /// The parameter ranges under which every pipeline stage is free
    /// of overflow.  They are machine limits, far beyond any plausible
    /// tuning, not algorithmic restrictions.
    pub open spec fn valid(self) -> bool {
        &&& 1 <= self.min_run_len <= 0x10000
        &&& 0 <= self.merge_tolerance <= 0x10000
        &&& self.min_region_size <= 0x10000
        &&& 1 <= self.max_region_size <= 0x10000
        &&& self.y_spread_tolerance <= 0x10000
        &&& self.x_spread_tolerance <= 0x10000
        &&& 0 <= self.split_distance_tolerance <= 0x10000
        &&& 0 <= self.min_separation <= 0x10000
        &&& 1 <= self.junction_tolerance <= 0x10000
    }
}

impl Default for Config {
    /// The defaults: ink cutoff 200, minimum run length 200 px, merge
    /// tolerance 20, region sizes in (50, 200), per-row spread below 3,
    /// per-column spread below 4, on-segment distance below 5, minimum
    /// separation 3, junction proximity below 20.
    fn default() -> (c: Config)
        ensures
            c.valid(),
            c.ink_threshold == 200,
            c.min_run_len == 200,
            c.merge_tolerance == 20,
            c.min_region_size == 50,
            c.max_region_size == 200,
            c.y_spread_tolerance == 3,
            c.x_spread_tolerance == 4,
            c.split_distance_tolerance == 5,
            c.min_separation == 3,
            c.junction_tolerance == 20,
    {
        Config {
            ink_threshold: 200,
            min_run_len: 200,
            merge_tolerance: 20,
            min_region_size: 50,
            max_region_size: 200,
            y_spread_tolerance: 3,
            x_spread_tolerance: 4,
            split_distance_tolerance: 5,
            min_separation: 3,
            junction_tolerance: 20,
        }
    }
}

} // verus!
