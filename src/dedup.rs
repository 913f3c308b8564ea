//! Keeping one record per point: the first record of each point in a
//! sequence, which is the best placed one when the sequence is sorted.

use std::collections::HashSet;
use vstd::prelude::*;
use crate::types::{PointId, Record};

verus! {

broadcast use vstd::std_specs::hash::group_hash_axioms, vstd::seq_lib::group_seq_properties;

/// The ids of a sequence of records, in order.
pub open spec fn ids_of(s: Seq<Record>) -> Seq<PointId> {
    s.map_values(|r: Record| r.id)
}

/// The records of `s` whose id occurs in no record before them, in order.
pub open spec fn first_occurrences(s: Seq<Record>) -> Seq<Record>
    decreases s.len(),
{
    if s.len() == 0 {
        s
    } else {
        let p = first_occurrences(s.drop_last());
        if ids_of(s.drop_last()).contains(s.last().id) {
            p
        } else {
            p.push(s.last())
        }
    }
}

/// The first `n` elements of `s`, or all of them if there are fewer.
pub open spec fn prefix<A>(s: Seq<A>, n: int) -> Seq<A> {
    if n < s.len() {
        s.take(n)
    } else {
        s
    }
}

proof fn lemma_first_occurrences_prefix(s: Seq<Record>, i: int)
    requires
        0 <= i <= s.len(),
    ensures
        first_occurrences(s.take(i)).len() <= first_occurrences(s).len(),
        first_occurrences(s).take(first_occurrences(s.take(i)).len() as int) == first_occurrences(
            s.take(i),
        ),
    decreases s.len(),
{
    if i == s.len() {
        assert(s.take(i) =~= s);
        assert(first_occurrences(s).take(first_occurrences(s).len() as int) =~= first_occurrences(s));
    } else {
        let t = s.drop_last();
        assert(t.take(i) =~= s.take(i));
        lemma_first_occurrences_prefix(t, i);
        let k = first_occurrences(s.take(i)).len() as int;
        assert(first_occurrences(s).take(k) =~= first_occurrences(t).take(k));
    }
}

/// The elements of `v` in reverse order.
pub(crate) fn reversed<T>(v: Vec<T>) -> (r: Vec<T>)
    ensures
        r@.len() == v@.len(),
        forall|k: int| 0 <= k < v@.len() ==> #[trigger] r@[k] == v@[v@.len() - 1 - k],
{
    let ghost s = v@;
    let mut src = v;
    let mut r: Vec<T> = Vec::new();
    while src.len() > 0
        invariant
            src@ == s.take(src@.len() as int),
            src@.len() <= s.len(),
            r@.len() + src@.len() == s.len(),
            forall|k: int| 0 <= k < r@.len() ==> #[trigger] r@[k] == s[s.len() - 1 - k],
        decreases src@.len(),
    {
        match src.pop() {
            Some(x) => {
                proof {
                    assert(src@ =~= s.take(src@.len() as int));
                }
                r.push(x);
            },
            None => {},
        }
    }
    r
}

/// Keeps, of each point, the first record in `records`, up to `limit` of them.
pub fn take_first_occurrences(records: Vec<Record>, limit: usize) -> (r: Vec<Record>)
    ensures
        r@ == prefix(first_occurrences(records@), limit as int),
{
    let ghost s = records@;
    let n = records.len();
    let mut rev = reversed(records);
    let mut seen: HashSet<PointId> = HashSet::new();
    let mut out: Vec<Record> = Vec::new();
    let mut i: usize = 0;
    while i < n && out.len() < limit
        invariant
            n == s.len(),
            i <= n,
            rev@.len() + i == n,
            forall|k: int| 0 <= k < rev@.len() ==> #[trigger] rev@[k] == s[n - 1 - k],
            out@ == first_occurrences(s.take(i as int)),
            out@.len() <= limit,
            forall|id: PointId| seen@.contains(id) <==> ids_of(s.take(i as int)).contains(id),
        decreases n - i,
    {
        match rev.pop() {
            Some(rec) => {
                proof {
                    assert(rec == s[i as int]);
                    assert(s.take(i + 1).drop_last() =~= s.take(i as int));
                    assert(ids_of(s.take(i + 1)) =~= ids_of(s.take(i as int)).push(rec.id));
                }
                if seen.insert(rec.id) {
                    out.push(rec);
                }
            },
            None => {},
        }
        i = i + 1;
    }
    proof {
        if i == n {
            assert(s.take(n as int) =~= s);
        } else {
            lemma_first_occurrences_prefix(s, i as int);
        }
    }
    out
}


pub(crate) proof fn lemma_first_occurrences_members(s: Seq<Record>)
    ensures
        forall|k: int| 0 <= k < first_occurrences(s).len() ==> s.contains(#[trigger] first_occurrences(s)[k]),
        forall|id: PointId| ids_of(first_occurrences(s)).contains(id) <==> ids_of(s).contains(id),
        forall|i: int, j: int|
            0 <= i < j < first_occurrences(s).len() ==> #[trigger] first_occurrences(s)[i].id
                != #[trigger] first_occurrences(s)[j].id,
    decreases s.len(),
{
    if s.len() > 0 {
        let t = s.drop_last();
        lemma_first_occurrences_members(t);
        assert(s =~= t.push(s.last()));
        assert(ids_of(s) =~= ids_of(t).push(s.last().id));
        let ft = first_occurrences(t);
        if !ids_of(t).contains(s.last().id) {
            assert(ids_of(first_occurrences(s)) =~= ids_of(ft).push(s.last().id));
            assert forall|i: int| 0 <= i < ft.len() implies #[trigger] ft[i].id != s.last().id by {
                assert(ids_of(ft)[i] == ft[i].id);
            }
        }
    }
}

pub(crate) proof fn lemma_first_occurrences_sorted(s: Seq<Record>, le: spec_fn(Record, Record) -> bool)
    requires
        forall|i: int, j: int| 0 <= i < j < s.len() ==> le(#[trigger] s[i], #[trigger] s[j]),
    ensures
        forall|i: int, j: int|
            0 <= i < j < first_occurrences(s).len() ==> le(
                #[trigger] first_occurrences(s)[i],
                #[trigger] first_occurrences(s)[j],
            ),
    decreases s.len(),
{
    if s.len() > 0 {
        let t = s.drop_last();
        assert forall|i: int, j: int| 0 <= i < j < t.len() implies le(#[trigger] t[i], #[trigger] t[j]) by {
            assert(t[i] == s[i] && t[j] == s[j]);
        }
        lemma_first_occurrences_sorted(t, le);
        lemma_first_occurrences_members(t);
        let ft = first_occurrences(t);
        assert forall|i: int| 0 <= i < ft.len() implies le(#[trigger] ft[i], s.last()) by {
            assert(t.contains(ft[i]));
            let k = choose|k: int| 0 <= k < t.len() && t[k] == ft[i];
            assert(s[k] == t[k]);
        }
    }
}

pub(crate) proof fn lemma_first_occurrences_first(s: Seq<Record>)
    ensures
        first_occurrences(s).len() <= s.len(),
        forall|k: int|
            0 <= k < first_occurrences(s).len() ==> exists|q: int|
                0 <= q < s.len() && s[q] == #[trigger] first_occurrences(s)[k] && forall|j: int|
                    0 <= j < q ==> #[trigger] s[j].id != first_occurrences(s)[k].id,
    decreases s.len(),
{
    if s.len() > 0 {
        let t = s.drop_last();
        lemma_first_occurrences_first(t);
        let ft = first_occurrences(t);
        let fs = first_occurrences(s);
        assert forall|k: int| 0 <= k < fs.len() implies exists|q: int|
            0 <= q < s.len() && s[q] == #[trigger] fs[k] && forall|j: int|
                0 <= j < q ==> #[trigger] s[j].id != fs[k].id by {
            if k < ft.len() {
                assert(fs[k] == ft[k]);
                let q = choose|q: int|
                    0 <= q < t.len() && t[q] == ft[k] && forall|j: int|
                        0 <= j < q ==> #[trigger] t[j].id != ft[k].id;
                assert forall|j: int| 0 <= j < q implies #[trigger] s[j].id != fs[k].id by {
                    assert(s[j] == t[j]);
                }
                assert(s[q] == fs[k]);
            } else {
                let q = s.len() - 1;
                assert(fs[k] == s.last());
                assert(!ids_of(t).contains(s.last().id));
                assert forall|j: int| 0 <= j < q implies #[trigger] s[j].id != fs[k].id by {
                    assert(ids_of(t)[j] == s[j].id);
                }
                assert(s[q] == fs[k]);
            }
        }
    }
}

/// Index `q` holds the first record of `s` with id `x`.
pub open spec fn first_index_of(s: Seq<Record>, x: PointId, q: int) -> bool {
    &&& 0 <= q < s.len()
    &&& s[q].id == x
    &&& forall|j: int| 0 <= j < q ==> #[trigger] s[j].id != x
}


pub(crate) proof fn lemma_first_index_exists(s: Seq<Record>, x: PointId, i: int)
    requires
        0 <= i < s.len(),
        s[i].id == x,
    ensures
        exists|q: int| 0 <= q <= i && s[q].id == x && forall|j: int| 0 <= j < q ==> #[trigger] s[j].id != x,
    decreases i,
{
    if exists|j: int| 0 <= j < i && s[j].id == x {
        let j = choose|j: int| 0 <= j < i && s[j].id == x;
        lemma_first_index_exists(s, x, j);
    } else {
        assert(forall|j: int| 0 <= j < i ==> #[trigger] s[j].id != x);
    }
}

/// The first records of the points keep the order in which the points first
/// occur in `s`.
pub(crate) proof fn lemma_first_occurrences_order(s: Seq<Record>)
    ensures
        forall|k1: int, k2: int, q1: int, q2: int|
            0 <= k1 < k2 < first_occurrences(s).len() && #[trigger] first_index_of(
                s,
                first_occurrences(s)[k1].id,
                q1,
            ) && #[trigger] first_index_of(s, first_occurrences(s)[k2].id, q2) ==> q1 < q2,
    decreases s.len(),
{
    if s.len() > 0 {
        let t = s.drop_last();
        let ft = first_occurrences(t);
        let fs = first_occurrences(s);
        lemma_first_occurrences_order(t);
        lemma_first_occurrences_members(t);
        assert forall|k: int, q: int|
            0 <= k < ft.len() && #[trigger] first_index_of(s, ft[k].id, q) implies first_index_of(
            t,
            ft[k].id,
            q,
        ) by {
            assert(ids_of(ft)[k] == ft[k].id);
            assert(ids_of(ft).contains(ft[k].id));
            assert(ids_of(t).contains(ft[k].id));
            let j = choose|j: int| 0 <= j < ids_of(t).len() && ids_of(t)[j] == ft[k].id;
            assert(s[j].id == ft[k].id);
            assert(q <= j);
            assert forall|i: int| 0 <= i < q implies #[trigger] t[i].id != ft[k].id by {
                assert(t[i] == s[i]);
            }
        }
        assert forall|k1: int, k2: int, q1: int, q2: int|
            0 <= k1 < k2 < fs.len() && #[trigger] first_index_of(s, fs[k1].id, q1)
                && #[trigger] first_index_of(s, fs[k2].id, q2) implies q1 < q2 by {
            assert(fs[k1] == ft[k1]);
            assert(first_index_of(t, ft[k1].id, q1));
            if k2 < ft.len() {
                assert(fs[k2] == ft[k2]);
                assert(first_index_of(t, ft[k2].id, q2));
            } else {
                assert(fs[k2] == s.last());
                assert(!ids_of(t).contains(s.last().id));
                if q2 < t.len() {
                    assert(ids_of(t)[q2] == s.last().id);
                }
            }
        }
    }
}

} // verus!
