//! Injectable samplers for the workload generator.
//!
//! The engine asks a [`Sampler`] for every random quantity it needs: initial
//! ease-in offsets and timeout deadlines (uniform), service times
//! (exponential), and think / retry-think times (Gaussian with a floor of
//! zero).  The choice of random-number generator is the host's; the engine
//! only relies on the bounds stated here.  A host-side implementation must
//! truncate its samples to [`crate::MAX_SAMPLE`] ticks — that bound is what
//! lets the engine prove its clock and sums never overflow.

use vstd::prelude::*;
use crate::MAX_SAMPLE;

verus! {

/// A source of workload samples, in ticks.
pub trait Sampler {
    /// A sample distributed uniformly over `[lo, hi)`.
    fn uniform(&mut self, lo: u64, hi: u64) -> (r: u64)
        requires
            lo < hi,
            hi <= MAX_SAMPLE,
        ensures
            lo <= r < hi,
    ;

    /// A sample from an exponential distribution with the given mean,
    /// truncated to [`MAX_SAMPLE`].
    fn exponential(&mut self, mean: u64) -> (r: u64)
        requires
            mean <= MAX_SAMPLE,
        ensures
            r <= MAX_SAMPLE,
    ;

    /// A sample from a Gaussian distribution with the given mean and
    /// standard deviation, clamped to a floor of zero (negative samples are
    /// truncated to zero, never rejected or redrawn) and truncated to
    /// [`MAX_SAMPLE`].
    fn gaussian_floor0(&mut self, mean: u64, std_dev: u64) -> (r: u64)
        requires
            mean <= MAX_SAMPLE,
            std_dev <= MAX_SAMPLE,
        ensures
            r <= MAX_SAMPLE,
    ;
}

/// The degenerate sampler: every distribution collapses to a fixed point —
/// a uniform sample is the lower bound of its range, an exponential or
/// Gaussian sample is its mean.  It makes a run fully deterministic, which
/// is what the end-to-end scenarios in the test suite need.
pub struct DeterministicSampler;

impl Sampler for DeterministicSampler {
    fn uniform(&mut self, lo: u64, hi: u64) -> (r: u64)
        ensures
            r == lo,
    {
        lo
    }

    fn exponential(&mut self, mean: u64) -> (r: u64)
        ensures
            r == mean,
    {
        mean
    }

    fn gaussian_floor0(&mut self, mean: u64, std_dev: u64) -> (r: u64)
        ensures
            r == mean,
    {
        mean
    }
}

} // verus!
