//! Scroll: checking the request, and merging the shards' pages into one,
//! either by point id with a next page offset, or ordered by a payload value.

use vstd::prelude::*;
use itertools::Itertools;
use crate::dedup::{
    first_index_of, first_occurrences, ids_of, lemma_first_occurrences_first,
    lemma_first_occurrences_members, lemma_first_occurrences_order, lemma_first_occurrences_sorted,
    reversed, take_first_occurrences,
};
use crate::types::{
    Collection, CollectionError, Direction, PointId, Record, ScrollRequest, ScrollResult,
    DEFAULT_SCROLL_LIMIT,
};

verus! {

broadcast use vstd::seq_lib::group_seq_properties;

/// The records of all the shards' answers, shard after shard.
pub open spec fn records_of(parts: Seq<Vec<Record>>) -> Seq<Record>
    decreases parts.len(),
{
    if parts.len() == 0 {
        Seq::empty()
    } else {
        records_of(parts.drop_last()) + parts.last()@
    }
}

/// Concatenates the shards' answers.
pub fn flatten_records(parts: Vec<Vec<Record>>) -> (r: Vec<Record>)
    ensures
        r@ == records_of(parts@),
{
    let ghost s = parts@;
    let n = parts.len();
    let mut rev = reversed(parts);
    let mut out: Vec<Record> = Vec::new();
    let mut i: usize = 0;
    while i < n
        invariant
            n == s.len(),
            i <= n,
            rev@.len() + i == n,
            forall|k: int| 0 <= k < rev@.len() ==> #[trigger] rev@[k] == s[n - 1 - k],
            out@ == records_of(s.take(i as int)),
        decreases n - i,
    {
        match rev.pop() {
            Some(part) => {
                let mut part = part;
                proof {
                    assert(part == s[i as int]);
                    assert(s.take(i + 1).drop_last() =~= s.take(i as int));
                }
                out.append(&mut part);
            },
            None => {},
        }
        i = i + 1;
    }
    proof {
        assert(s.take(n as int) =~= s);
    }
    out
}

/// Relies on itertools' `sorted_unstable_by_key`, which sorts with std's
/// `sort_unstable_by_key`: the same records, by ascending id.
#[verifier::external_body]
fn sorted_by_id(records: Vec<Record>) -> (r: Vec<Record>)
    ensures
        r@.to_multiset() == records@.to_multiset(),
        forall|i: int, j: int| 0 <= i < j < r@.len() ==> #[trigger] r@[i].id <= #[trigger] r@[j].id,
{
    records.into_iter().sorted_unstable_by_key(|record| record.id).collect()
}

/// `a` comes strictly before `b` by (order value, id), a missing order value
/// counting as the least one, ascending or descending.
pub open spec fn precedes(a: Record, b: Record, direction: Direction) -> bool {
    let (x, y) = if direction == Direction::Asc { (a, b) } else { (b, a) };
    match (x.order_value, y.order_value) {
        (None, None) => x.id < y.id,
        (None, Some(_)) => true,
        (Some(_), None) => false,
        (Some(v), Some(w)) => v < w || (v == w && x.id < y.id),
    }
}

/// No record of `s` comes strictly before one that stands before it.
pub open spec fn sorted_in(s: Seq<Record>, direction: Direction) -> bool {
    forall|i: int, j: int| 0 <= i < j < s.len() ==> !precedes(#[trigger] s[j], #[trigger] s[i], direction)
}

/// Whether `a` comes strictly before `b` in an ordered scroll.
pub fn comes_before(a: &Record, b: &Record, direction: Direction) -> (r: bool)
    ensures
        r == precedes(*a, *b, direction),
{
    let (x, y) = match direction {
        Direction::Asc => (a, b),
        Direction::Desc => (b, a),
    };
    match (x.order_value, y.order_value) {
        (None, None) => x.id < y.id,
        (None, Some(_)) => true,
        (Some(_), None) => false,
        (Some(v), Some(w)) => v < w || (v == w && x.id < y.id),
    }
}

/// Relies on itertools' `kmerge_by`: a merge of the lists through a heap that
/// always yields the least head, so that lists each sorted give one sorted list
/// of all their records.
#[verifier::external_body]
fn kmerge_records(lists: Vec<Vec<Record>>, direction: Direction) -> (r: Vec<Record>)
    ensures
        r@.to_multiset() == records_of(lists@).to_multiset(),
        (forall|k: int| 0 <= k < lists@.len() ==> sorted_in(#[trigger] lists@[k]@, direction))
            ==> sorted_in(r@, direction),
{
    lists.into_iter().kmerge_by(|a, b| comes_before(a, b, direction)).collect()
}

/// The ids of `s` strictly ascend.
pub open spec fn ascending_ids(s: Seq<Record>) -> bool {
    forall|i: int, j: int| 0 <= i < j < s.len() ==> #[trigger] s[i].id < #[trigger] s[j].id
}

/// Every point of `all` is among those of `page`.
pub open spec fn covers(page: Seq<Record>, all: Seq<Record>) -> bool {
    forall|id: PointId| #[trigger] ids_of(all).contains(id) ==> ids_of(page).contains(id)
}

/// Every point of `all` below `bound` is among those of `page`.
pub open spec fn covers_below(page: Seq<Record>, all: Seq<Record>, bound: PointId) -> bool {
    forall|id: PointId| #[trigger] ids_of(all).contains(id) && id < bound ==> ids_of(page).contains(id)
}

/// `r` is a page of a scroll by id over the records `all`, each shard having
/// been asked for `fetch_limit` records: its records are among `all`, in
/// strictly ascending id order, and they are the least points of `all`;
/// either all of them, or `fetch_limit - 1` of them with the next one as the
/// next page offset.
pub open spec fn unordered_page(r: ScrollResult, all: Seq<Record>, fetch_limit: usize) -> bool {
    &&& forall|k: int| 0 <= k < r.points@.len() ==> all.contains(#[trigger] r.points@[k])
    &&& ascending_ids(r.points@)
    &&& r.next_page_offset matches Some(n) ==> {
        &&& ids_of(all).contains(n)
        &&& r.points@.len() + 1 == fetch_limit
        &&& forall|k: int| 0 <= k < r.points@.len() ==> #[trigger] r.points@[k].id < n
        &&& covers_below(r.points@, all, n)
    }
    &&& r.next_page_offset is None ==> r.points@.len() < fetch_limit && covers(r.points@, all)
}

/// The ids of `p` strictly ascend.
pub open spec fn ascending(p: Seq<PointId>) -> bool {
    forall|i: int, j: int| 0 <= i < j < p.len() ==> #[trigger] p[i] < #[trigger] p[j]
}

proof fn lemma_ascending_same_members(p: Seq<PointId>, q: Seq<PointId>)
    requires
        ascending(p),
        ascending(q),
        forall|x: PointId| p.contains(x) <==> q.contains(x),
    ensures
        p == q,
    decreases p.len(),
{
    if p.len() == 0 {
        if q.len() > 0 {
            assert(q.contains(q[0]));
        }
        assert(q =~= p);
    } else {
        assert(p.contains(p[0]));
        let m = choose|m: int| 0 <= m < q.len() && q[m] == p[0];
        assert(q.contains(q[0]));
        let m2 = choose|m: int| 0 <= m < p.len() && p[m] == q[0];
        if m > 0 {
            assert(q[0] < q[m]);
            if m2 > 0 {
                assert(p[0] < p[m2]);
            }
        }
        let p_rest = p.drop_first();
        let q_rest = q.drop_first();
        assert forall|x: PointId| p_rest.contains(x) <==> q_rest.contains(x) by {
            if p_rest.contains(x) {
                let k = choose|k: int| 0 <= k < p_rest.len() && p_rest[k] == x;
                assert(p[k + 1] == x && p[0] < p[k + 1]);
                assert(p.contains(x));
                let j = choose|j: int| 0 <= j < q.len() && q[j] == x;
                assert(j != 0);
                assert(q_rest[j - 1] == x);
            }
            if q_rest.contains(x) {
                let k = choose|k: int| 0 <= k < q_rest.len() && q_rest[k] == x;
                assert(q[k + 1] == x && q[0] < q[k + 1]);
                assert(q.contains(x));
                let j = choose|j: int| 0 <= j < p.len() && p[j] == x;
                assert(j != 0);
                assert(p_rest[j - 1] == x);
            }
        }
        lemma_ascending_same_members(p_rest, q_rest);
        assert(p =~= seq![p[0]] + p_rest);
        assert(q =~= seq![q[0]] + q_rest);
    }
}

proof fn lemma_page_ids(r: ScrollResult, all: Seq<Record>, fetch_limit: usize)
    requires
        unordered_page(r, all, fetch_limit),
    ensures
        ascending(ids_of(r.points@)),
        ids_of(r.points@).to_set().len() == r.points@.len(),
        forall|x: PointId| #[trigger]
            ids_of(r.points@).contains(x) ==> ids_of(all).contains(x) && (r.next_page_offset matches Some(
                n,
            ) ==> x < n),
{
    let p = ids_of(r.points@);
    assert(ascending(p)) by {
        assert forall|i: int, j: int| 0 <= i < j < p.len() implies #[trigger] p[i] < #[trigger] p[j] by {
            assert(r.points@[i].id < r.points@[j].id);
        }
    }
    assert(p.no_duplicates()) by {
        assert forall|i: int, j: int| 0 <= i < p.len() && 0 <= j < p.len() && i != j implies p[i]
            != p[j] by {
            if i < j {
                assert(p[i] < p[j]);
            } else {
                assert(p[j] < p[i]);
            }
        }
    }
    p.unique_seq_to_set();
    assert forall|x: PointId| #[trigger] p.contains(x) implies ids_of(all).contains(x) && (
    r.next_page_offset matches Some(n) ==> x < n) by {
        let k = choose|k: int| 0 <= k < p.len() && p[k] == x;
        assert(all.contains(r.points@[k]));
        let m = choose|m: int| 0 <= m < all.len() && all[m] == r.points@[k];
        assert(ids_of(all)[m] == x);
    }
}

proof fn lemma_page_too_short(a: Seq<PointId>, n: PointId, b: Seq<PointId>)
    requires
        a.to_set().len() == a.len(),
        b.to_set().len() == b.len(),
        !a.contains(n),
        b.contains(n),
        forall|x: PointId| a.contains(x) ==> b.contains(x),
    ensures
        b.len() > a.len(),
{
    let sa = a.to_set().insert(n);
    assert(sa.subset_of(b.to_set()));
    vstd::set_lib::lemma_len_subset(sa, b.to_set());
}

/// A scroll by id is repeatable: two pages over the same shards' answers and
/// the same `fetch_limit` hold the same points in the same order and give
/// the same next page offset.
pub proof fn lemma_unordered_page_repeatable(
    all: Seq<Record>,
    fetch_limit: usize,
    a: ScrollResult,
    b: ScrollResult,
)
    requires
        unordered_page(a, all, fetch_limit),
        unordered_page(b, all, fetch_limit),
    ensures
        ids_of(a.points@) == ids_of(b.points@),
        a.next_page_offset == b.next_page_offset,
{
    lemma_page_ids(a, all, fetch_limit);
    lemma_page_ids(b, all, fetch_limit);
    let pa = ids_of(a.points@);
    let pb = ids_of(b.points@);
    assert forall|x: PointId| ids_of(all).contains(x) implies (#[trigger] pa.contains(x) <==> (
    a.next_page_offset matches Some(n) ==> x < n)) by {
        if a.next_page_offset is None {
            assert(covers(a.points@, all));
        }
    }
    assert forall|x: PointId| ids_of(all).contains(x) implies (#[trigger] pb.contains(x) <==> (
    b.next_page_offset matches Some(n) ==> x < n)) by {
        if b.next_page_offset is None {
            assert(covers(b.points@, all));
        }
    }
    match (a.next_page_offset, b.next_page_offset) {
        (Some(n1), Some(n2)) => {
            if n1 < n2 {
                lemma_page_too_short(pa, n1, pb);
            } else if n2 < n1 {
                lemma_page_too_short(pb, n2, pa);
            }
        },
        (Some(n1), None) => {
            lemma_page_too_short(pa, n1, pb);
        },
        (None, Some(n2)) => {
            lemma_page_too_short(pb, n2, pa);
        },
        (None, None) => {},
    }
    assert forall|x: PointId| pa.contains(x) <==> pb.contains(x) by {
        if pa.contains(x) {
            assert(ids_of(all).contains(x));
        }
        if pb.contains(x) {
            assert(ids_of(all).contains(x));
        }
    }
    lemma_ascending_same_members(pa, pb);
}

proof fn lemma_records_of_members(parts: Seq<Vec<Record>>)
    ensures
        forall|x: Record|
            #[trigger] records_of(parts).contains(x) <==> exists|i: int|
                0 <= i < parts.len() && (#[trigger] parts[i]@).contains(x),
    decreases parts.len(),
{
    if parts.len() > 0 {
        let t = parts.drop_last();
        lemma_records_of_members(t);
        assert forall|x: Record| #[trigger] records_of(parts).contains(x) <==> exists|i: int|
            0 <= i < parts.len() && (#[trigger] parts[i]@).contains(x) by {
            let a = records_of(t);
            let b = parts.last()@;
            assert(records_of(parts) == a + b);
            if records_of(parts).contains(x) {
                let k = choose|k: int| 0 <= k < (a + b).len() && (a + b)[k] == x;
                if k < a.len() {
                    assert(a.contains(x));
                    let i = choose|i: int| 0 <= i < t.len() && (#[trigger] t[i]@).contains(x);
                    assert(t[i] == parts[i]);
                } else {
                    assert(b[k - a.len()] == x);
                    assert(parts[parts.len() - 1]@.contains(x));
                }
            }
            if exists|i: int| 0 <= i < parts.len() && (#[trigger] parts[i]@).contains(x) {
                let i = choose|i: int| 0 <= i < parts.len() && (#[trigger] parts[i]@).contains(x);
                let k = choose|k: int| 0 <= k < parts[i]@.len() && parts[i]@[k] == x;
                if i < t.len() {
                    assert(t[i] == parts[i]);
                    assert(a.contains(x));
                    let m = choose|m: int| 0 <= m < a.len() && a[m] == x;
                    assert((a + b)[m] == x);
                } else {
                    assert((a + b)[a.len() + k] == x);
                }
            }
        }
    }
}

/// A shard's answer to a scroll by id from `offset`, asked for `fetch_limit`
/// records, when it holds the points `held`: its least points from `offset`
/// on, in ascending id order, `fetch_limit` of them or all there are.
pub open spec fn least_from(answer: Seq<Record>, held: Set<PointId>, offset: PointId, fetch_limit: usize) -> bool {
    &&& ascending_ids(answer)
    &&& answer.len() <= fetch_limit
    &&& forall|k: int| 0 <= k < answer.len() ==> #[trigger] answer[k].id >= offset && held.contains(answer[k].id)
    &&& forall|y: PointId| #[trigger] held.contains(y) && y >= offset && !ids_of(answer).contains(y)
        ==> answer.len() == fetch_limit && forall|k: int| 0 <= k < answer.len() ==> #[trigger] answer[k].id < y
}

/// Pages of a scroll by id miss no point and invent none: where each shard
/// answered with its least points from `offset` on, the page holds exactly
/// the points of the shards from `offset` on, below the next page offset if
/// there is one (which is itself a point of a shard). The next page starts
/// at that offset, so the pages, one after the other, list every point once,
/// in ascending id order.
pub proof fn lemma_unordered_page_complete(
    held: Seq<Set<PointId>>,
    shard_records: Seq<Vec<Record>>,
    offset: PointId,
    fetch_limit: usize,
    r: ScrollResult,
)
    requires
        held.len() == shard_records.len(),
        forall|i: int| 0 <= i < held.len() ==> least_from(#[trigger] shard_records[i]@, held[i], offset, fetch_limit),
        unordered_page(r, records_of(shard_records), fetch_limit),
    ensures
        forall|i: int, y: PointId|
            0 <= i < held.len() && #[trigger] held[i].contains(y) && y >= offset && (r.next_page_offset matches Some(n) ==> y < n)
                ==> ids_of(r.points@).contains(y),
        forall|y: PointId| #[trigger] ids_of(r.points@).contains(y) ==> y >= offset && exists|i: int|
            0 <= i < held.len() && #[trigger] held[i].contains(y),
        r.next_page_offset matches Some(n) ==> n >= offset && exists|i: int|
            0 <= i < held.len() && #[trigger] held[i].contains(n),
{
    let all = records_of(shard_records);
    let pts = ids_of(r.points@);
    lemma_records_of_members(shard_records);
    lemma_page_ids(r, all, fetch_limit);
    assert forall|x: PointId| #[trigger] ids_of(all).contains(x) implies x >= offset && exists|i: int|
        0 <= i < held.len() && #[trigger] held[i].contains(x) by {
        let m = choose|m: int| 0 <= m < ids_of(all).len() && ids_of(all)[m] == x;
        assert(all.contains(all[m]));
        let i = choose|i: int| 0 <= i < shard_records.len() && (#[trigger] shard_records[i]@).contains(all[m]);
        let k = choose|k: int| 0 <= k < shard_records[i]@.len() && shard_records[i]@[k] == all[m];
        assert(least_from(shard_records[i]@, held[i], offset, fetch_limit));
        assert(shard_records[i]@[k].id >= offset && held[i].contains(shard_records[i]@[k].id));
    }
    assert forall|i: int, y: PointId|
        0 <= i < held.len() && #[trigger] held[i].contains(y) && y >= offset && (r.next_page_offset matches Some(n) ==> y < n)
        implies pts.contains(y) by {
        let ans = shard_records[i]@;
        assert(least_from(ans, held[i], offset, fetch_limit));
        assert forall|x: PointId| #[trigger] ids_of(ans).contains(x) implies ids_of(all).contains(x) by {
            let k = choose|k: int| 0 <= k < ids_of(ans).len() && ids_of(ans)[k] == x;
            assert(ans.contains(ans[k]));
            assert(all.contains(ans[k]));
            let m = choose|m: int| 0 <= m < all.len() && all[m] == ans[k];
            assert(ids_of(all)[m] == x);
        }
        if ids_of(ans).contains(y) {
            assert(ids_of(all).contains(y));
            if r.next_page_offset is None {
                assert(covers(r.points@, all));
            }
        } else {
            let a = ids_of(ans);
            assert(a.no_duplicates()) by {
                assert forall|p: int, q: int| 0 <= p < a.len() && 0 <= q < a.len() && p != q implies a[p] != a[q] by {
                    if p < q {
                        assert(ans[p].id < ans[q].id);
                    } else {
                        assert(ans[q].id < ans[p].id);
                    }
                }
            }
            a.unique_seq_to_set();
            assert forall|x: PointId| a.to_set().contains(x) implies pts.to_set().contains(x) by {
                let k = choose|k: int| 0 <= k < a.len() && a[k] == x;
                assert(ans[k].id < y);
                assert(ids_of(all).contains(x));
                if r.next_page_offset is None {
                    assert(covers(r.points@, all));
                }
                assert(pts.contains(x));
            }
            vstd::set_lib::lemma_len_subset(a.to_set(), pts.to_set());
        }
    }
}

/// Number of records to ask each shard for in a scroll, or why the request
/// is refused: an id offset together with an ordering is bad input, a zero
/// page size a bad request. A scroll by id asks for one record more than the
/// page holds, to learn where the next page starts.
pub open spec fn scroll_fetch_limit(request: ScrollRequest) -> usize {
    let limit = match request.limit {
        Some(l) => l,
        None => DEFAULT_SCROLL_LIMIT,
    };
    if request.order_by is None && limit < usize::MAX {
        (limit + 1) as usize
    } else {
        limit
    }
}

impl Collection {
    /// Checks a scroll request and gives the number of records to ask each
    /// shard for (`scroll_fetch_limit`).
    pub fn scroll_by(request: &ScrollRequest) -> (r: Result<usize, CollectionError>)
        ensures
            request.order_by is Some && request.offset is Some ==> r matches Err(
                CollectionError::BadInput { .. },
            ),
            !(request.order_by is Some && request.offset is Some) && request.limit == Some(0usize)
                ==> r matches Err(CollectionError::BadRequest { .. }),
            !(request.order_by is Some && request.offset is Some) && request.limit != Some(0usize)
                ==> r == Ok::<usize, CollectionError>(scroll_fetch_limit(*request)),
    {
        let limit = match request.limit {
            Some(l) => l,
            None => DEFAULT_SCROLL_LIMIT,
        };
        if request.order_by.is_some() && request.offset.is_some() {
            return Err(
                CollectionError::BadInput {
                    description: "Cannot use an `offset` when using `order_by`. The alternative for paging is to use `order_by.start_from` and a filter to exclude the IDs that you've already seen for the `order_by.start_from` value".to_owned(),
                },
            );
        }
        if limit == 0 {
            return Err(CollectionError::BadRequest { description: "Limit cannot be 0".to_owned() });
        }
        if request.order_by.is_none() {
            Ok(limit.saturating_add(1))
        } else {
            Ok(limit)
        }
    }

    /// Merges the shards' answers to a scroll by id, each shard having been
    /// asked for `fetch_limit` records. The page holds the least distinct
    /// points in ascending id order, one record each. When `fetch_limit`
    /// distinct points came back, the last of them is left out and its id
    /// starts the next page; otherwise the page holds all of them and is the
    /// last one.
    pub fn merge_unordered_scroll(shard_records: Vec<Vec<Record>>, fetch_limit: usize) -> (r:
        ScrollResult)
        requires
            fetch_limit > 0,
        ensures
            unordered_page(r, records_of(shard_records@), fetch_limit),
    {
        let ghost all = records_of(shard_records@);
        let records = flatten_records(shard_records);
        let ghost recs = records@;
        let sorted = sorted_by_id(records);
        let ghost srt = sorted@;
        let mut points = take_first_occurrences(sorted, fetch_limit);
        let ghost fo = first_occurrences(srt);
        let ghost taken = points@;
        proof {
            lemma_first_occurrences_members(srt);
            let le = |a: Record, b: Record| a.id <= b.id;
            lemma_first_occurrences_sorted(srt, le);
            assert(ascending_ids(fo)) by {
                assert forall|i: int, j: int| 0 <= i < j < fo.len() implies #[trigger] fo[i].id
                    < #[trigger] fo[j].id by {
                    assert(le(fo[i], fo[j]));
                }
            }
            assert(srt.to_multiset() == all.to_multiset());
            assert forall|x: Record| srt.contains(x) <==> all.contains(x) by {
                srt.to_multiset_ensures();
                all.to_multiset_ensures();
                assert(srt.contains(x) <==> srt.to_multiset().count(x) > 0);
                assert(all.contains(x) <==> all.to_multiset().count(x) > 0);
            }
            assert forall|id: PointId| #[trigger] ids_of(all).contains(id) implies ids_of(fo).contains(id) by {
                let k = choose|k: int| 0 <= k < ids_of(all).len() && ids_of(all)[k] == id;
                assert(all.contains(all[k]));
                assert(srt.contains(all[k]));
                let m = choose|m: int| 0 <= m < srt.len() && srt[m] == all[k];
                assert(ids_of(srt)[m] == id);
                assert(ids_of(srt).contains(id));
            }
            assert forall|k: int| 0 <= k < taken.len() implies all.contains(#[trigger] taken[k]) by {
                assert(taken[k] == fo[k]);
                assert(srt.contains(fo[k]));
            }
        }
        if points.len() < fetch_limit {
            proof {
                assert(taken == fo);
            }
            ScrollResult { points, next_page_offset: None }
        } else {
            let last = points.pop();
            match last {
                Some(rec) => {
                    proof {
                        let n = rec.id;
                        assert(rec == fo[fetch_limit - 1]);
                        assert(points@ =~= taken.drop_last());
                        assert(srt.contains(fo[fetch_limit - 1]));
                        assert(all.contains(rec));
                        let q = choose|q: int| 0 <= q < all.len() && all[q] == rec;
                        assert(ids_of(all)[q] == n);
                        assert forall|id: PointId| #[trigger] ids_of(all).contains(id) && id < n
                            implies ids_of(points@).contains(id) by {
                            assert(ids_of(fo).contains(id));
                            let m = choose|m: int| 0 <= m < ids_of(fo).len() && ids_of(fo)[m] == id;
                            assert(fo[m].id == id);
                            if m >= fetch_limit - 1 {
                                if m > fetch_limit - 1 {
                                    assert(fo[fetch_limit - 1].id < fo[m].id);
                                }
                            }
                            assert(points@[m] == fo[m]);
                            assert(ids_of(points@)[m] == id);
                        }
                    }
                    ScrollResult { points, next_page_offset: Some(rec.id) }
                },
                None => ScrollResult { points, next_page_offset: None },
            }
        }
    }

    /// Merges the shards' answers to a scroll ordered by a payload value. Each
    /// shard answers in the requested order; the page holds at most `limit`
    /// records in that order, one per point, the first (best placed) record of
    /// each point. An ordered scroll gives no next page offset: its pages go by
    /// `start_from`.
    pub fn merge_ordered_scroll(
        shard_records: Vec<Vec<Record>>,
        limit: usize,
        direction: Direction,
    ) -> (r: ScrollResult)
        ensures
            r.next_page_offset is None,
            r.points@.len() <= limit,
            forall|k: int|
                0 <= k < r.points@.len() ==> records_of(shard_records@).contains(
                    #[trigger] r.points@[k],
                ),
            forall|i: int, j: int|
                0 <= i < j < r.points@.len() ==> #[trigger] r.points@[i].id
                    != #[trigger] r.points@[j].id,
            r.points@.len() < limit ==> covers(r.points@, records_of(shard_records@)),
            (forall|k: int|
                0 <= k < shard_records@.len() ==> sorted_in(#[trigger] shard_records@[k]@, direction))
                ==> {
                &&& forall|i: int, j: int|
                    0 <= i < j < r.points@.len() ==> precedes(
                        #[trigger] r.points@[i],
                        #[trigger] r.points@[j],
                        direction,
                    )
                &&& forall|k: int, x: Record|
                    0 <= k < r.points@.len() && #[trigger] records_of(shard_records@).contains(x)
                        && x.id == #[trigger] r.points@[k].id ==> !precedes(x, r.points@[k], direction)
                &&& 0 < limit == r.points@.len() ==> forall|x: Record|
                    #[trigger] records_of(shard_records@).contains(x) && !ids_of(r.points@).contains(
                        x.id,
                    ) ==> !precedes(x, r.points@.last(), direction)
            },
    {
        let ghost all = records_of(shard_records@);
        let ghost lists = shard_records@;
        let merged = kmerge_records(shard_records, direction);
        let ghost mg = merged@;
        let points = take_first_occurrences(merged, limit);
        let ghost fo = first_occurrences(mg);
        proof {
            lemma_first_occurrences_members(mg);
            lemma_first_occurrences_first(mg);
            assert forall|x: Record| mg.contains(x) <==> all.contains(x) by {
                mg.to_multiset_ensures();
                all.to_multiset_ensures();
                assert(mg.contains(x) <==> mg.to_multiset().count(x) > 0);
                assert(all.contains(x) <==> all.to_multiset().count(x) > 0);
            }
            assert forall|k: int| 0 <= k < points@.len() implies all.contains(#[trigger] points@[k]) by {
                assert(points@[k] == fo[k]);
                assert(mg.contains(fo[k]));
            }
            assert forall|i: int, j: int| 0 <= i < j < points@.len() implies #[trigger] points@[i].id
                != #[trigger] points@[j].id by {
                assert(points@[i] == fo[i] && points@[j] == fo[j]);
            }
            if points@.len() < limit {
                assert(points@ == fo);
                assert forall|id: PointId| #[trigger] ids_of(all).contains(id) implies ids_of(
                    points@,
                ).contains(id) by {
                    let k = choose|k: int| 0 <= k < ids_of(all).len() && ids_of(all)[k] == id;
                    assert(all.contains(all[k]));
                    let m = choose|m: int| 0 <= m < mg.len() && mg[m] == all[k];
                    assert(ids_of(mg)[m] == id);
                    assert(ids_of(mg).contains(id));
                }
            }
            if forall|k: int| 0 <= k < lists.len() ==> sorted_in(#[trigger] lists[k]@, direction) {
                assert(sorted_in(mg, direction));
                let le = |a: Record, b: Record| !precedes(b, a, direction);
                assert forall|i: int, j: int| 0 <= i < j < mg.len() implies le(
                    #[trigger] mg[i],
                    #[trigger] mg[j],
                ) by {}
                lemma_first_occurrences_sorted(mg, le);
                assert forall|i: int, j: int| 0 <= i < j < points@.len() implies precedes(
                    #[trigger] points@[i],
                    #[trigger] points@[j],
                    direction,
                ) by {
                    assert(points@[i] == fo[i] && points@[j] == fo[j]);
                    assert(le(fo[i], fo[j]));
                }
                assert forall|k: int, x: Record|
                    0 <= k < points@.len() && #[trigger] all.contains(x) && x.id == #[trigger] points@[k].id
                    implies !precedes(x, points@[k], direction) by {
                    assert(points@[k] == fo[k]);
                    let q = choose|q: int|
                        0 <= q < mg.len() && mg[q] == fo[k] && forall|j: int|
                            0 <= j < q ==> #[trigger] mg[j].id != fo[k].id;
                    assert(mg.contains(x));
                    let m = choose|m: int| 0 <= m < mg.len() && mg[m] == x;
                    if m < q {
                        assert(mg[m].id != fo[k].id);
                    } else if q < m {
                        assert(!precedes(mg[m], mg[q], direction));
                    }
                }
                if 0 < limit == points@.len() {
                    lemma_first_occurrences_order(mg);
                    let l = limit - 1;
                    assert(points@.last() == fo[l]);
                    let ql = choose|q: int|
                        0 <= q < mg.len() && mg[q] == fo[l] && forall|j: int|
                            0 <= j < q ==> #[trigger] mg[j].id != fo[l].id;
                    assert(first_index_of(mg, fo[l].id, ql));
                    assert forall|x: Record|
                        #[trigger] all.contains(x) && !ids_of(points@).contains(x.id) implies !precedes(
                        x,
                        points@.last(),
                        direction,
                    ) by {
                        assert(mg.contains(x));
                        let m = choose|m: int| 0 <= m < mg.len() && mg[m] == x;
                        assert(ids_of(mg)[m] == x.id);
                        assert(ids_of(mg).contains(x.id));
                        let k = choose|k: int| 0 <= k < ids_of(fo).len() && ids_of(fo)[k] == x.id;
                        if k < limit {
                            assert(points@[k] == fo[k]);
                            assert(ids_of(points@)[k] == x.id);
                        }
                        let q = choose|q: int|
                            0 <= q < mg.len() && mg[q] == fo[k] && forall|j: int|
                                0 <= j < q ==> #[trigger] mg[j].id != fo[k].id;
                        assert(first_index_of(mg, fo[k].id, q));
                        assert(ql < q);
                        if m < q {
                            assert(mg[m].id != fo[k].id);
                        }
                        assert(!precedes(mg[m], mg[ql], direction));
                    }
                }
            }
        }
        ScrollResult { points, next_page_offset: None }
    }
}

} // verus!
