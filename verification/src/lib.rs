//! Verifiable nearest-neighbour search core.
//!
//! A hidden set of embedding vectors is searched for the best match to a
//! query under a fixed metric.  Because one proving unit has a bounded
//! compute ceiling, large sets are reduced by a tournament of bounded
//! chunks; each chunk's inputs and output are bound by digests, and the
//! per-chunk results are packed into one deterministic byte commitment
//! that an aggregation step proves and an independent verifier recomputes.
//!
//! Vector components are fixed-point values carried as `i32`.  Scores are
//! computed in exact integer arithmetic, so every pair of scores is
//! totally ordered; the conversion from floating-point embeddings (which
//! must reject NaN) happens at the boundary, outside this crate.

use vstd::prelude::*;

pub mod aggregate;
pub mod chunk;
pub mod codec;
pub mod digest;
pub mod embed;
pub mod scorer;
pub mod tournament;

verus! {

/// Why a search request was rejected before any scoring began.
#[derive(Clone, Copy, Debug, PartialEq, Eq, Structural)]
pub enum SearchError {
    /// The sample set held no vectors at all.
    EmptyInput,
    /// The sample at this position does not share the query's dimension.
    DimensionMismatch { index: usize },
}

/// Why packing or checking an aggregate commitment failed.
#[derive(Clone, Copy, Debug, PartialEq, Eq, Structural)]
pub enum AggregationError {
    /// The number of verifying keys differs from the number of
    /// public-value blobs.
    ArityMismatch { vkeys: usize, values: usize },
    /// A declared commitment does not equal the recomputed one.
    VerificationFailure,
}

} // verus!
