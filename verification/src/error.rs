//! What can go wrong when policies are configured and simulated.

use vstd::prelude::*;

verus! {

/// The ways in which configuring or running a policy instance can fail.
#[derive(Debug, Clone, Copy, PartialEq, Eq, Structural)]
pub enum Error {
    /// The per-tick cost of holding compressed data is not below the cost of
    /// keeping it.
    CompressedNotCheaper,
    /// Recovering compressed data does not cost less than recovering
    /// discarded data.
    RecoveryNotCheaper,
    /// A density was given no weights at all.
    EmptyDensity,
    /// A density was given one weight only: its domain ends at a cost of
    /// zero, which leaves no waiting time to draw.
    ZeroCost,
    /// The weight at the end of a density's domain, which must bound all the
    /// others from above, is zero.
    ZeroPeak,
    /// A density holds a weight above the one at the end of its domain.
    WeightAbovePeak,
    /// A density's domain does not end at the recovery cost it is used for.
    DensityDomain,
    /// Rejection sampling accepted no candidate within its attempts.
    SamplingExhausted,
}

} // verus!
