use vstd::prelude::*;

verus! {

/// Identifier of a point, unique within a collection.
pub type PointId = u64;

/// Identifier of a physical shard.
pub type ShardId = u32;

/// A logical shard key that a user addresses shards by.
#[derive(Clone, Debug, PartialEq, Eq, Hash)]
pub enum ShardKey {
    Keyword(String),
    Number(u64),
}

/// Logical clock position of a forwarded operation.
#[derive(Clone, Copy, Debug, PartialEq, Eq, Structural)]
pub struct ClockTag {
    pub peer_id: u64,
    pub clock_id: u32,
    pub clock_tick: u64,
}

/// An operation, optionally tagged with the clock of the shard it was issued on.
#[derive(Clone, Debug)]
pub struct OperationWithClockTag<Op> {
    pub operation: Op,
    pub clock_tag: Option<ClockTag>,
}

impl<Op> OperationWithClockTag<Op> {
    /// An operation without clock tag.
    pub fn untagged(operation: Op) -> (r: Self)
        ensures
            r.operation == operation,
            r.clock_tag.is_none(),
    {
        OperationWithClockTag { operation, clock_tag: None }
    }
}

/// Consistency strength requested for a write.
#[derive(Clone, Copy, Debug, PartialEq, Eq, Structural)]
pub enum WriteOrdering {
    Weak,
    Medium,
    Strong,
}

/// Progress that a shard reports for an applied update.
#[derive(Clone, Copy, Debug, PartialEq, Eq, Structural)]
pub enum UpdateStatus {
    Acknowledged,
    Completed,
    ClockRejected,
}

/// What a shard answers to an applied update.
#[derive(Clone, Copy, Debug, PartialEq, Eq, Structural)]
pub struct UpdateResult {
    pub operation_id: Option<u64>,
    pub status: UpdateStatus,
}

/// Errors of collection operations.
#[derive(Debug, PartialEq, Eq)]
pub enum CollectionError {
    /// The request is malformed in a way the user has to correct.
    BadInput { description: String },
    /// The request cannot be served as it stands.
    BadRequest { description: String },
    /// A named shard is not present here (yet).
    PreconditionFailed { description: String },
    /// Only some of the shards that took part in a write failed.
    InconsistentShardFailure {
        shards_total: u32,
        shards_failed: u32,
        first_err: Box<CollectionError>,
    },
    /// A failure inside a shard or its replication, passed on unchanged.
    ServiceError { error: String },
}

/// A point as returned by reads.
#[derive(Clone, Debug, PartialEq, Eq)]
pub struct Record {
    pub id: PointId,
    /// The value the points are ordered by, in an ordered scroll.
    pub order_value: Option<i64>,
    /// The shard key of the shard the point was read from.
    pub shard_key: Option<ShardKey>,
}

/// Sort direction of an ordered scroll.
#[derive(Clone, Copy, Debug, PartialEq, Eq, Structural)]
pub enum Direction {
    Asc,
    Desc,
}

/// Ordering of a scroll by a payload value.
#[derive(Clone, Debug, PartialEq, Eq)]
pub struct OrderBy {
    /// The payload field that holds the order value.
    pub key: String,
    pub direction: Direction,
    /// The order value the scroll starts from.
    pub start_from: Option<i64>,
}

/// What a scroll asks for, apart from what is handed to the shards as it is
/// (filter, payload and vector selection).
#[derive(Clone, Debug, PartialEq, Eq)]
pub struct ScrollRequest {
    /// The id to start from, in a scroll by id.
    pub offset: Option<PointId>,
    /// Page size; `DEFAULT_SCROLL_LIMIT` when not given.
    pub limit: Option<usize>,
    pub order_by: Option<OrderBy>,
}

/// Page size of a scroll that gives none.
pub const DEFAULT_SCROLL_LIMIT: usize = 10;

/// One page of a scroll.
#[derive(Clone, Debug, PartialEq, Eq)]
pub struct ScrollResult {
    pub points: Vec<Record>,
    pub next_page_offset: Option<PointId>,
}

/// Number of points matched by a count.
#[derive(Clone, Copy, Debug, PartialEq, Eq, Structural)]
pub struct CountResult {
    pub count: usize,
}

/// Live migration of points to a new shard.
#[derive(Clone, Debug)]
pub struct ReshardingState {
    /// The shard receiving migrated points.
    pub shard_id: ShardId,
    /// Points that have already migrated.
    pub migrated: Vec<PointId>,
}

impl ReshardingState {
    /// Whether the point has already migrated to the receiving shard.
    pub fn is_migrated(&self, id: PointId) -> (r: bool)
        ensures
            r == self.migrated@.contains(id),
    {
        let mut i: usize = 0;
        while i < self.migrated.len()
            invariant
                i <= self.migrated@.len(),
                forall|j: int| 0 <= j < i ==> self.migrated@[j] != id,
            decreases self.migrated@.len() - i,
        {
            if self.migrated[i] == id {
                return true;
            }
            i = i + 1;
        }
        false
    }
}

/// The shard layout of a collection, as far as the coordination needs it.
pub struct Collection {
    /// Ids of all shards of the collection.
    pub shards: Vec<ShardId>,
    /// Present while a resharding is in progress.
    pub resharding: Option<ReshardingState>,
}

impl Collection {
    /// Whether reads of the shard must leave out migrated points: true when a
    /// resharding is active and the shard is not the one receiving them.
    pub fn uses_resharding_filter(&self, shard_id: ShardId) -> (r: bool)
        ensures
            r == (self.resharding.is_some() && self.resharding->0.shard_id != shard_id),
    {
        match &self.resharding {
            Some(state) => state.shard_id != shard_id,
            None => false,
        }
    }

    /// Whether the collection has a shard with this id.
    pub fn has_shard(&self, shard_id: ShardId) -> (r: bool)
        ensures
            r == self.shards@.contains(shard_id),
    {
        let mut i: usize = 0;
        while i < self.shards.len()
            invariant
                i <= self.shards@.len(),
                forall|j: int| 0 <= j < i ==> self.shards@[j] != shard_id,
            decreases self.shards@.len() - i,
        {
            if self.shards[i] == shard_id {
                return true;
            }
            i = i + 1;
        }
        false
    }
}

} // verus!
