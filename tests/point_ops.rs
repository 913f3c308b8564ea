use point_ops::dedup::take_first_occurrences;
use point_ops::scroll::comes_before;
use point_ops::types::{
    ClockTag, Collection, CollectionError, Direction, OperationWithClockTag, OrderBy, Record,
    ReshardingState, ScrollRequest, ShardKey, UpdateResult, UpdateStatus, WriteOrdering,
};
use point_ops::write::PeerUpdate;

fn res(id: u64) -> UpdateResult {
    UpdateResult { operation_id: Some(id), status: UpdateStatus::Completed }
}

fn service(msg: &str) -> CollectionError {
    CollectionError::ServiceError { error: msg.to_string() }
}

fn rec(id: u64) -> Record {
    Record { id, order_value: None, shard_key: None }
}

fn ordered(id: u64, value: i64) -> Record {
    Record { id, order_value: Some(value), shard_key: None }
}

fn keyed(id: u64, key: u64) -> Record {
    Record { id, order_value: None, shard_key: Some(ShardKey::Number(key)) }
}

fn collection(shards: Vec<u32>) -> Collection {
    Collection { shards, resharding: None }
}

fn resharding(shards: Vec<u32>, target: u32, migrated: Vec<u64>) -> Collection {
    Collection { shards, resharding: Some(ReshardingState { shard_id: target, migrated }) }
}

fn ids(points: &[Record]) -> Vec<u64> {
    points.iter().map(|p| p.id).collect()
}

#[test]
fn update_all_local_first_failure_wins() {
    let c = collection(vec![0, 1, 2]);
    let r = c.update_all_local(vec![Ok(Some(res(1))), Err(service("a")), Err(service("b"))]);
    assert_eq!(r, Err(service("a")));
}

#[test]
fn update_all_local_first_present_result() {
    let c = collection(vec![0, 1, 2]);
    let r = c.update_all_local(vec![Ok(None), Ok(Some(res(7))), Ok(Some(res(8)))]);
    assert_eq!(r, Ok(Some(res(7))));
}

#[test]
fn update_all_local_no_shards_is_none() {
    let c = collection(vec![]);
    assert_eq!(c.update_all_local(vec![]), Ok(None));
}

#[test]
fn update_all_local_no_result() {
    let c = collection(vec![3, 4]);
    assert_eq!(c.update_all_local(vec![Ok(None), Ok(None)]), Ok(None));
}

#[test]
fn update_from_peer_weak_keeps_clock_tag() {
    let c = collection(vec![0, 1]);
    let tag = ClockTag { peer_id: 9, clock_id: 1, clock_tick: 42 };
    let op = OperationWithClockTag { operation: "upsert", clock_tag: Some(tag) };
    match c.update_from_peer(op, 1, WriteOrdering::Weak) {
        Ok(PeerUpdate::Local(o)) => {
            assert_eq!(o.operation, "upsert");
            assert_eq!(o.clock_tag, Some(tag));
        }
        _ => panic!("expected a local update"),
    }
}

#[test]
fn update_from_peer_strong_reports_clock_tag() {
    let c = collection(vec![0, 1]);
    let tag = ClockTag { peer_id: 9, clock_id: 1, clock_tick: 42 };
    let op = OperationWithClockTag { operation: "delete", clock_tag: Some(tag) };
    match c.update_from_peer(op, 0, WriteOrdering::Strong) {
        Ok(PeerUpdate::Consistent { operation, ordering, ignored_clock_tag }) => {
            assert_eq!(operation, "delete");
            assert_eq!(ordering, WriteOrdering::Strong);
            assert_eq!(ignored_clock_tag, Some(tag));
        }
        _ => panic!("expected an update through the consistency protocol"),
    }
}

#[test]
fn update_from_peer_medium_without_tag() {
    let c = collection(vec![5]);
    let op = OperationWithClockTag::untagged(1u8);
    match c.update_from_peer(op, 5, WriteOrdering::Medium) {
        Ok(PeerUpdate::Consistent { ignored_clock_tag, .. }) => assert_eq!(ignored_clock_tag, None),
        _ => panic!("expected an update through the consistency protocol"),
    }
}

#[test]
fn update_from_peer_missing_shard() {
    let c = collection(vec![0, 1]);
    let op = OperationWithClockTag::untagged(());
    let r = c.update_from_peer(op, 7, WriteOrdering::Weak);
    match r {
        Err(CollectionError::PreconditionFailed { description }) => {
            assert_eq!(description, "No target shard 7 found for update")
        }
        _ => panic!("expected PreconditionFailed"),
    }
}

#[test]
fn finish_peer_update_outcomes() {
    assert_eq!(Collection::finish_peer_update(2, Ok(Some(res(3)))), Ok(res(3)));
    assert!(matches!(
        Collection::finish_peer_update(2, Ok(None)),
        Err(CollectionError::PreconditionFailed { .. })
    ));
    assert_eq!(Collection::finish_peer_update(2, Err(service("x"))), Err(service("x")));
}

#[test]
fn update_from_client_all_succeed() {
    let r = Collection::update_from_client(vec![Ok(res(1)), Ok(res(2)), Ok(res(3))]);
    assert_eq!(r, Ok(res(3)));
}

#[test]
fn update_from_client_partial_failure() {
    let r = Collection::update_from_client(vec![Ok(res(1)), Err(service("a")), Err(service("b"))]);
    assert_eq!(
        r,
        Err(CollectionError::InconsistentShardFailure {
            shards_total: 3,
            shards_failed: 2,
            first_err: Box::new(service("a")),
        })
    );
}

#[test]
fn update_from_client_all_fail() {
    let r = Collection::update_from_client(vec![Err(service("a")), Err(service("b"))]);
    assert_eq!(r, Err(service("a")));
}

#[test]
fn update_from_client_no_shards() {
    let r = Collection::update_from_client(vec![]);
    assert!(matches!(r, Err(CollectionError::BadRequest { .. })));
}

#[test]
fn scroll_rejects_zero_limit() {
    let req = ScrollRequest { offset: None, limit: Some(0), order_by: None };
    assert!(matches!(Collection::scroll_by(&req), Err(CollectionError::BadRequest { .. })));
}

#[test]
fn scroll_rejects_offset_with_order_by() {
    let order_by = OrderBy { key: "price".to_string(), direction: Direction::Asc, start_from: None };
    let req = ScrollRequest { offset: Some(5), limit: Some(0), order_by: Some(order_by) };
    assert!(matches!(Collection::scroll_by(&req), Err(CollectionError::BadInput { .. })));
}

#[test]
fn scroll_fetch_limits() {
    let req = ScrollRequest { offset: None, limit: None, order_by: None };
    assert_eq!(Collection::scroll_by(&req), Ok(11));
    let req = ScrollRequest { offset: Some(3), limit: Some(4), order_by: None };
    assert_eq!(Collection::scroll_by(&req), Ok(5));
    let req = ScrollRequest { offset: None, limit: Some(usize::MAX), order_by: None };
    assert_eq!(Collection::scroll_by(&req), Ok(usize::MAX));
    let order_by = OrderBy { key: "price".to_string(), direction: Direction::Desc, start_from: Some(3) };
    let req = ScrollRequest { offset: None, limit: Some(4), order_by: Some(order_by) };
    assert_eq!(Collection::scroll_by(&req), Ok(4));
}

#[test]
fn unordered_scroll_page_and_offset() {
    // page size 3, so each shard was asked for 4
    let shards = vec![vec![rec(1), rec(4), rec(7)], vec![rec(2), rec(4), rec(9)], vec![rec(3)]];
    let r = Collection::merge_unordered_scroll(shards, 4);
    assert_eq!(ids(&r.points), vec![1, 2, 3]);
    assert_eq!(r.next_page_offset, Some(4));
}

#[test]
fn unordered_scroll_last_page() {
    let shards = vec![vec![rec(5), rec(8)], vec![rec(8), rec(6)]];
    let r = Collection::merge_unordered_scroll(shards, 4);
    assert_eq!(ids(&r.points), vec![5, 6, 8]);
    assert_eq!(r.next_page_offset, None);
}

#[test]
fn unordered_scroll_is_repeatable() {
    let shards = || vec![vec![rec(10), rec(2)], vec![rec(2), rec(5), rec(1)]];
    let a = Collection::merge_unordered_scroll(shards(), 3);
    let b = Collection::merge_unordered_scroll(shards(), 3);
    assert_eq!(ids(&a.points), ids(&b.points));
    assert_eq!(a.next_page_offset, b.next_page_offset);
    assert_eq!(ids(&a.points), vec![1, 2]);
    assert_eq!(a.next_page_offset, Some(5));
}

#[test]
fn unordered_scroll_pages_cover_everything() {
    let data: Vec<Vec<u64>> = vec![vec![1, 4, 6, 9, 12], vec![2, 4, 7, 12], vec![3, 5, 8, 10, 11]];
    let page = 2usize;
    let mut offset = 0u64;
    let mut seen = Vec::new();
    loop {
        let shards: Vec<Vec<Record>> = data
            .iter()
            .map(|s| s.iter().copied().filter(|&i| i >= offset).take(page + 1).map(rec).collect())
            .collect();
        let r = Collection::merge_unordered_scroll(shards, page + 1);
        seen.extend(ids(&r.points));
        match r.next_page_offset {
            Some(n) => offset = n,
            None => break,
        }
    }
    assert_eq!(seen, (1..=12).collect::<Vec<u64>>());
}

#[test]
fn ordered_scroll_merges_three_shards() {
    let shards = vec![
        vec![ordered(1, 10), ordered(2, 30), ordered(3, 50)],
        vec![ordered(4, 20), ordered(2, 40)],
        vec![ordered(5, 20), ordered(6, 60)],
    ];
    let r = Collection::merge_ordered_scroll(shards, 5, Direction::Asc);
    assert_eq!(ids(&r.points), vec![1, 4, 5, 2, 3]);
    assert_eq!(r.points[3].order_value, Some(30));
    assert_eq!(r.next_page_offset, None);
}

#[test]
fn ordered_scroll_descending() {
    let shards = vec![
        vec![ordered(1, 50), ordered(2, 10)],
        vec![ordered(2, 40), ordered(3, 30)],
    ];
    let r = Collection::merge_ordered_scroll(shards, 10, Direction::Desc);
    assert_eq!(ids(&r.points), vec![1, 2, 3]);
    assert_eq!(r.points[1].order_value, Some(40));
}

#[test]
fn comes_before_order() {
    assert!(comes_before(&ordered(1, 1), &ordered(0, 2), Direction::Asc));
    assert!(comes_before(&ordered(1, 5), &ordered(2, 5), Direction::Asc));
    assert!(comes_before(&ordered(0, 2), &ordered(1, 1), Direction::Desc));
    assert!(!comes_before(&ordered(1, 5), &ordered(1, 5), Direction::Asc));
}

#[test]
fn first_occurrences_with_limit() {
    let r = take_first_occurrences(vec![keyed(3, 1), rec(1), keyed(3, 2), rec(2)], 2);
    assert_eq!(r, vec![keyed(3, 1), rec(1)]);
}

#[test]
fn count_sums_shards() {
    assert_eq!(Collection::count(&vec![3, 0, 4]).count, 7);
    assert_eq!(Collection::count(&vec![]).count, 0);
}

#[test]
fn resharding_filter_choice() {
    let c = resharding(vec![0, 1, 2], 2, vec![5]);
    assert!(c.uses_resharding_filter(0));
    assert!(!c.uses_resharding_filter(2));
    assert!(!collection(vec![0]).uses_resharding_filter(0));
}

#[test]
fn retrieve_during_resharding_keeps_target_copy() {
    let c = resharding(vec![0, 1, 2], 2, vec![4, 5]);
    let r = c.retrieve(
        &vec![0, 1, 2],
        vec![vec![keyed(4, 0), keyed(1, 0)], vec![keyed(5, 1), keyed(2, 1)], vec![keyed(4, 2), keyed(5, 2)]],
    );
    assert_eq!(r, vec![keyed(1, 0), keyed(2, 1), keyed(4, 2), keyed(5, 2)]);
}

#[test]
fn retrieve_deduplicates_without_resharding() {
    let c = collection(vec![0, 1]);
    let r = c.retrieve(&vec![0, 1], vec![vec![keyed(1, 0), keyed(2, 0)], vec![keyed(2, 1), keyed(3, 1)]]);
    assert_eq!(r, vec![keyed(1, 0), keyed(2, 0), keyed(3, 1)]);
}

#[test]
fn count_during_resharding_counts_each_point_once() {
    // old shards hold {1, 2, 3} and {4, 5}; points 2 and 4 have migrated to shard 2
    let c = resharding(vec![0, 1, 2], 2, vec![2, 4]);
    let held: Vec<(u32, Vec<u64>)> = vec![(0, vec![1, 2, 3]), (1, vec![4, 5]), (2, vec![2, 4])];
    let migrated = [2u64, 4];
    let counts: Vec<usize> = held
        .iter()
        .map(|(id, points)| {
            if c.uses_resharding_filter(*id) {
                points.iter().filter(|p| !migrated.contains(p)).count()
            } else {
                points.len()
            }
        })
        .collect();
    assert_eq!(counts, vec![2, 1, 2]);
    assert_eq!(Collection::count(&counts).count, 5);
}

#[test]
fn resharding_state_migrated_points() {
    let state = ReshardingState { shard_id: 3, migrated: vec![7, 9] };
    assert!(state.is_migrated(9));
    assert!(!state.is_migrated(8));
}

#[test]
fn has_shard_lookup() {
    let c = collection(vec![4, 8]);
    assert!(c.has_shard(8));
    assert!(!c.has_shard(5));
}

#[test]
fn ordered_scroll_keeps_best_within_limit() {
    let shards = vec![
        vec![ordered(7, 1), ordered(8, 9)],
        vec![ordered(3, 2), ordered(7, 4)],
        vec![ordered(1, 5)],
    ];
    let r = Collection::merge_ordered_scroll(shards, 2, Direction::Asc);
    assert_eq!(ids(&r.points), vec![7, 3]);
    assert_eq!(r.points[0].order_value, Some(1));
}
