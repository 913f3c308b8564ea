//! Write routing: which shard applies an operation and how, and how the
//! outcomes of the shards that applied it make up the answer to the caller.
//!
//! Every shard that a write was dispatched to runs to completion; the
//! functions here see all the outcomes, in dispatch order, and classify them.

use vstd::prelude::*;
use crate::types::{
    ClockTag, Collection, CollectionError, OperationWithClockTag, ShardId, UpdateResult,
    WriteOrdering,
};

verus! {

/// Index `i` holds the first failed outcome of `rs`.
pub open spec fn first_failure_at<T>(rs: Seq<Result<T, CollectionError>>, i: int) -> bool {
    &&& 0 <= i < rs.len()
    &&& rs[i] is Err
    &&& forall|j: int| 0 <= j < i ==> #[trigger] rs[j] is Ok
}

/// Every outcome of `rs` is a success.
pub open spec fn all_succeeded<T>(rs: Seq<Result<T, CollectionError>>) -> bool {
    forall|i: int| 0 <= i < rs.len() ==> #[trigger] rs[i] is Ok
}

/// Index `i` holds the first success that carries a result, all before it
/// being successes without one.
pub open spec fn first_present_at(
    rs: Seq<Result<Option<UpdateResult>, CollectionError>>,
    i: int,
) -> bool {
    &&& 0 <= i < rs.len()
    &&& rs[i] matches Ok(Some(_))
    &&& forall|j: int| 0 <= j < i ==> #[trigger] rs[j] == Ok::<Option<UpdateResult>, CollectionError>(None)
}

/// Number of failed outcomes in `rs`.
pub open spec fn failures<T>(rs: Seq<Result<T, CollectionError>>) -> nat
    decreases rs.len(),
{
    if rs.len() == 0 {
        0
    } else {
        failures(rs.drop_last()) + if rs.last() is Err { 1nat } else { 0nat }
    }
}

/// Answer to an update that every local shard applied, from their outcomes:
/// the first failure if any shard failed, else the first result that a shard
/// returned, else none.
pub open spec fn local_update_outcome(
    rs: Seq<Result<Option<UpdateResult>, CollectionError>>,
) -> Result<Option<UpdateResult>, CollectionError> {
    if exists|i: int| first_failure_at(rs, i) {
        rs[choose|i: int| first_failure_at(rs, i)]
    } else if exists|i: int| first_present_at(rs, i) {
        rs[choose|i: int| first_present_at(rs, i)]
    } else {
        Ok(None)
    }
}

proof fn lemma_first_failure_unique<T>(rs: Seq<Result<T, CollectionError>>, i: int, k: int)
    requires
        first_failure_at(rs, i),
        first_failure_at(rs, k),
    ensures
        i == k,
{
    if i < k {
        assert(rs[i] is Ok);
    } else if k < i {
        assert(rs[k] is Ok);
    }
}

proof fn lemma_first_present_unique(
    rs: Seq<Result<Option<UpdateResult>, CollectionError>>,
    i: int,
    k: int,
)
    requires
        first_present_at(rs, i),
        first_present_at(rs, k),
    ensures
        i == k,
{
    if i < k {
        assert(rs[i] == Ok::<Option<UpdateResult>, CollectionError>(None));
    } else if k < i {
        assert(rs[k] == Ok::<Option<UpdateResult>, CollectionError>(None));
    }
}

proof fn lemma_failures_zero<T>(rs: Seq<Result<T, CollectionError>>)
    ensures
        failures(rs) == 0 <==> all_succeeded(rs),
    decreases rs.len(),
{
    if rs.len() > 0 {
        lemma_failures_zero(rs.drop_last());
        if all_succeeded(rs) {
            assert(rs.last() is Ok);
            assert(all_succeeded(rs.drop_last()));
        }
        if failures(rs) == 0 {
            assert forall|i: int| 0 <= i < rs.len() implies #[trigger] rs[i] is Ok by {
                if i < rs.len() - 1 {
                    assert(rs.drop_last()[i] == rs[i]);
                }
            }
        }
    }
}

/// Where a forwarded operation is applied.
pub enum PeerUpdate<Op> {
    /// Applied to the shard's local replica directly, clock tag included.
    Local(OperationWithClockTag<Op>),
    /// Applied through the replica set's consistency protocol. Such an
    /// operation is not meant to carry a clock tag: one that came along is
    /// left out and reported here, so that the caller can warn about it.
    Consistent { operation: Op, ordering: WriteOrdering, ignored_clock_tag: Option<ClockTag> },
}

/// Relies on std's formatting of integers: the message names the missing shard.
#[verifier::external_body]
fn missing_shard_message(shard_id: ShardId) -> String {
    format!("No target shard {shard_id} found for update")
}

impl Collection {
    /// Answer to an operation applied to every local shard, from the outcome
    /// of each of them (all of them run to completion). The first failure wins;
    /// otherwise the first result a shard returned; none without local shards.
    pub fn update_all_local(
        &self,
        results: Vec<Result<Option<UpdateResult>, CollectionError>>,
    ) -> (r: Result<Option<UpdateResult>, CollectionError>)
        requires
            results@.len() == self.shards@.len(),
        ensures
            r == local_update_outcome(results@),
            results@.len() == 0 ==> r == Ok::<Option<UpdateResult>, CollectionError>(None),
            (exists|i: int| first_failure_at(results@, i)) <==> r is Err,
    {
        let ghost rs = results@;
        let mut outcomes = results;
        let n = outcomes.len();
        let mut found: Option<UpdateResult> = None;
        let ghost mut found_at: int = 0;
        let mut i: usize = 0;
        while i < n
            invariant
                n == rs.len(),
                outcomes@ == rs,
                rs == results@,
                i <= n,
                forall|j: int| 0 <= j < i ==> #[trigger] rs[j] is Ok,
                found is None ==> forall|j: int|
                    0 <= j < i ==> #[trigger] rs[j] == Ok::<Option<UpdateResult>, CollectionError>(None),
                found is Some ==> first_present_at(rs, found_at) && rs[found_at] == Ok::<
                    Option<UpdateResult>,
                    CollectionError,
                >(found),
            decreases n - i,
        {
            if outcomes[i].is_err() {
                proof {
                    assert(first_failure_at(rs, i as int));
                    let c = choose|k: int| first_failure_at(rs, k);
                    lemma_first_failure_unique(rs, i as int, c);
                }
                let r = outcomes.remove(i);
                assert(r == local_update_outcome(rs));
                return r;
            }
            if found.is_none() {
                if let Ok(u) = &outcomes[i] {
                    if u.is_some() {
                        found = *u;
                        proof {
                            found_at = i as int;
                        }
                    }
                }
            }
            i = i + 1;
        }
        proof {
            if exists|k: int| first_failure_at(rs, k) {
                let k = choose|k: int| first_failure_at(rs, k);
                assert(rs[k] is Ok);
            }
            if found is Some {
                let c = choose|k: int| first_present_at(rs, k);
                lemma_first_present_unique(rs, found_at, c);
            } else if exists|k: int| first_present_at(rs, k) {
                let k = choose|k: int| first_present_at(rs, k);
                assert(rs[k] == Ok::<Option<UpdateResult>, CollectionError>(None));
            }
        }
        Ok(found)
    }
    /// Plans an operation forwarded by a peer for one shard of this
    /// collection. A missing shard fails with `PreconditionFailed`, which
    /// callers tell apart from other errors since it is expected while a shard
    /// is being set up. `Weak` ordering applies the operation to the shard
    /// directly, keeping its clock tag; `Medium` and `Strong` go through the
    /// consistency protocol, without the clock tag.
    pub fn update_from_peer<Op>(
        &self,
        operation: OperationWithClockTag<Op>,
        shard_selection: ShardId,
        ordering: WriteOrdering,
    ) -> (r: Result<PeerUpdate<Op>, CollectionError>)
        ensures
            !self.shards@.contains(shard_selection) ==> r matches Err(
                CollectionError::PreconditionFailed { .. },
            ),
            self.shards@.contains(shard_selection) && ordering == WriteOrdering::Weak ==> r
                == Ok::<PeerUpdate<Op>, CollectionError>(PeerUpdate::Local(operation)),
            self.shards@.contains(shard_selection) && ordering != WriteOrdering::Weak ==> r
                == Ok::<PeerUpdate<Op>, CollectionError>(
                (PeerUpdate::Consistent {
                    operation: operation.operation,
                    ordering,
                    ignored_clock_tag: operation.clock_tag,
                }),
            ),
    {
        if !self.has_shard(shard_selection) {
            return Err(
                CollectionError::PreconditionFailed {
                    description: missing_shard_message(shard_selection),
                },
            );
        }
        match ordering {
            WriteOrdering::Weak => Ok(PeerUpdate::Local(operation)),
            WriteOrdering::Medium | WriteOrdering::Strong => Ok(
                PeerUpdate::Consistent {
                    operation: operation.operation,
                    ordering,
                    ignored_clock_tag: operation.clock_tag,
                },
            ),
        }
    }

    /// Answer to a forwarded operation from what the shard returned. A shard
    /// that had no local replica to apply it to returns no result, which is
    /// reported as `PreconditionFailed` as for a missing shard.
    pub fn finish_peer_update(
        shard_selection: ShardId,
        outcome: Result<Option<UpdateResult>, CollectionError>,
    ) -> (r: Result<UpdateResult, CollectionError>)
        ensures
            outcome matches Ok(Some(u)) ==> r == Ok::<UpdateResult, CollectionError>(u),
            outcome matches Ok(None) ==> r matches Err(CollectionError::PreconditionFailed { .. }),
            outcome is Err ==> r == Err::<UpdateResult, CollectionError>(outcome->Err_0),
    {
        match outcome {
            Ok(Some(u)) => Ok(u),
            Ok(None) => Err(
                CollectionError::PreconditionFailed {
                    description: missing_shard_message(shard_selection),
                },
            ),
            Err(e) => Err(e),
        }
    }

    /// Answer to a client operation from the outcomes of the shards it was
    /// split to, in dispatch order. No shard is a bad request. If only some
    /// shards failed, the write is reported as inconsistent, with the number
    /// of shards, of failed ones, and the first failure. If all failed, the
    /// first failure is passed on as it is. If none failed, the answer is the
    /// last shard's result (all of them are equivalent).
    pub fn update_from_client(
        results: Vec<Result<UpdateResult, CollectionError>>,
    ) -> (r: Result<UpdateResult, CollectionError>)
        requires
            results@.len() <= u32::MAX,
        ensures
            results@.len() == 0 ==> r matches Err(CollectionError::BadRequest { .. }),
            results@.len() > 0 && failures(results@) == 0 ==> r == results@.last(),
            results@.len() > 0 && failures(results@) == results@.len() ==> exists|i: int|
                first_failure_at(results@, i) && r == results@[i],
            0 < failures(results@) < results@.len() ==> exists|i: int|
                first_failure_at(results@, i) && (r matches Err(
                    CollectionError::InconsistentShardFailure {
                        shards_total,
                        shards_failed,
                        first_err,
                    },
                ) && shards_total == results@.len() && shards_failed == failures(results@)
                    && *first_err == results@[i]->Err_0),
    {
        let ghost rs = results@;
        let mut outcomes = results;
        let n = outcomes.len();
        if n == 0 {
            return Err(CollectionError::BadRequest { description: "Empty update request".to_owned() });
        }
        let mut with_error: usize = 0;
        let mut first: usize = n;
        let mut i: usize = 0;
        while i < n
            invariant
                n == rs.len(),
                outcomes@ == rs,
                rs == results@,
                n <= u32::MAX,
                i <= n,
                with_error == failures(rs.take(i as int)),
                with_error <= i,
                first <= n,
                first == n <==> with_error == 0,
                first < n ==> first < i && first_failure_at(rs, first as int),
                first == n ==> forall|j: int| 0 <= j < i ==> #[trigger] rs[j] is Ok,
            decreases n - i,
        {
            proof {
                assert(rs.take(i + 1).drop_last() =~= rs.take(i as int));
            }
            if outcomes[i].is_err() {
                if first == n {
                    first = i;
                }
                with_error = with_error + 1;
            }
            i = i + 1;
        }
        proof {
            assert(rs.take(n as int) =~= rs);
            lemma_failures_zero(rs);
        }
        if with_error > 0 {
            let first_err = outcomes.remove(first);
            assert(first_failure_at(rs, first as int) && first_err == rs[first as int]);
            if with_error < n {
                match first_err {
                    Err(e) => Err(
                        CollectionError::InconsistentShardFailure {
                            shards_total: n as u32,
                            shards_failed: with_error as u32,
                            first_err: Box::new(e),
                        },
                    ),
                    Ok(u) => Ok(u),
                }
            } else {
                first_err
            }
        } else {
            match outcomes.pop() {
                Some(last) => last,
                None => Err(CollectionError::BadRequest { description: "Empty update request".to_owned() }),
            }
        }
    }
}


} // verus!
