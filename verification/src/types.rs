use vstd::prelude::*;

verus! {

/// Offset of a point inside one segment.
pub type PointOffsetType = u32;

/// Sequence number of a write, scoped to a collection.
pub type SeqNumberType = u64;

/// Identifier of a shard.
pub type ShardId = u32;

/// Identifier of a peer of the cluster.
pub type PeerId = u64;

/// Score of a point, in fixed point: a larger score is a better match.
pub type ScoreType = i64;

/// Identifier that clients give to a point: a number or a UUID.
#[derive(Clone, Copy, Debug, PartialEq, Eq, Structural, Hash, PartialOrd, Ord)]
pub enum PointIdType {
    NumId(u64),
    Uuid(u128),
}

/// A point of one segment with its score against a query.
#[derive(Clone, Copy, Debug, PartialEq, Eq, Structural)]
pub struct ScoredPointOffset {
    pub idx: PointOffsetType,
    pub score: ScoreType,
}

/// A point found by a query, with its score.
#[derive(Clone, Copy, Debug, PartialEq, Eq, Structural)]
pub struct ScoredPoint {
    pub id: PointIdType,
    /// Version of the point when it was read.
    pub version: SeqNumberType,
    pub score: ScoreType,
}

/// Why an operation on a segment or an index failed.
#[derive(Debug, PartialEq, Eq)]
pub enum OperationError {
    /// An internal invariant does not hold, or storage failed.
    ServiceError { description: String },
    /// The request is malformed.
    ValidationError { description: String },
    /// A collection, a shard or a point does not exist.
    NotFound { description: String },
    /// The time allowed for the request ran out.
    Timeout { description: String },
    /// The operation was stopped from outside.
    Cancelled { description: String },
    /// The state does not allow the operation, such as a write to an index
    /// that takes none.
    PreconditionFailed { description: String },
    /// Too few replicas answered.
    InconsistentShardFailure { description: String },
}

/// Estimate of how many points a condition matches.
#[derive(Clone, Copy, Debug, PartialEq, Eq, Structural)]
pub struct CardinalityEstimation {
    /// No fewer points than this match.
    pub min: usize,
    /// Expected number of matching points.
    pub exp: usize,
    /// No more points than this match.
    pub max: usize,
}

impl CardinalityEstimation {
    /// The estimate that pins the count to one value.
    pub fn exact(count: usize) -> (r: Self)
        ensures
            r.min == count,
            r.exp == count,
            r.max == count,
    {
        CardinalityEstimation { min: count, exp: count, max: count }
    }
}

} // verus!
