//! Retrieval by id: each shard's answer without the points it no longer
//! owns while a resharding is active, merged with one record per point.

use vstd::prelude::*;
use crate::dedup::{
    first_index_of, first_occurrences, ids_of, lemma_first_index_exists,
    lemma_first_occurrences_first, lemma_first_occurrences_members, reversed,
    take_first_occurrences,
};
use crate::types::{Collection, PointId, Record, ShardId};

verus! {

broadcast use vstd::seq_lib::group_seq_properties;

impl Collection {
    /// The records of one shard's answer to a retrieval that remain visible:
    /// while a resharding is active, a shard other than the receiving one
    /// drops the points that have already migrated.
    pub open spec fn visible(&self, shard_id: ShardId, records: Seq<Record>) -> Seq<Record> {
        if self.resharding is Some && self.resharding->0.shard_id != shard_id {
            records.filter(|r: Record| !self.resharding->0.migrated@.contains(r.id))
        } else {
            records
        }
    }

    /// The visible records of all the shards' answers, shard after shard.
    pub open spec fn visible_records(
        &self,
        shard_ids: Seq<ShardId>,
        parts: Seq<Vec<Record>>,
    ) -> Seq<Record>
        decreases parts.len(),
    {
        if parts.len() == 0 || shard_ids.len() != parts.len() {
            Seq::empty()
        } else {
            self.visible_records(shard_ids.drop_last(), parts.drop_last()) + self.visible(
                shard_ids.last(),
                parts.last()@,
            )
        }
    }

    /// Keeps the visible records of one shard's answer.
    fn visible_part(&self, shard_id: ShardId, records: Vec<Record>) -> (r: Vec<Record>)
        ensures
            r@ == self.visible(shard_id, records@),
    {
        if !self.uses_resharding_filter(shard_id) {
            return records;
        }
        let ghost s = records@;
        let ghost pred = |r: Record| !self.resharding->0.migrated@.contains(r.id);
        proof {
            reveal(Seq::filter);
        }
        let n = records.len();
        let mut rev = reversed(records);
        let mut out: Vec<Record> = Vec::new();
        let mut i: usize = 0;
        while i < n
            invariant
                n == s.len(),
                i <= n,
                rev@.len() + i == n,
                forall|k: int| 0 <= k < rev@.len() ==> #[trigger] rev@[k] == s[n - 1 - k],
                out@ == s.take(i as int).filter(pred),
                self.resharding is Some,
                pred == (|r: Record| !self.resharding->0.migrated@.contains(r.id)),
            decreases n - i,
        {
            match rev.pop() {
                Some(rec) => {
                    proof {
                        assert(rec == s[i as int]);
                        assert(s.take(i + 1).drop_last() =~= s.take(i as int));
                    }
                    let migrated = match &self.resharding {
                        Some(state) => state.is_migrated(rec.id),
                        None => false,
                    };
                    proof {
                        reveal(Seq::filter);
                        assert(s.take(i + 1).last() == rec);
                        assert(pred(rec) == !migrated);
                    }
                    if !migrated {
                        out.push(rec);
                    }
                },
                None => {},
            }
            i = i + 1;
        }
        proof {
            assert(s.take(n as int) =~= s);
        }
        out
    }

    /// Merges the shards' answers to a retrieval by id: the visible records of
    /// each shard (`visible`), shard after shard, keeping the first record of
    /// each point. `shard_ids[k]` is the shard that gave `shard_records[k]`.
    pub fn retrieve(&self, shard_ids: &Vec<ShardId>, shard_records: Vec<Vec<Record>>) -> (r: Vec<
        Record,
    >)
        requires
            shard_ids@.len() == shard_records@.len(),
        ensures
            r@ == first_occurrences(self.visible_records(shard_ids@, shard_records@)),
    {
        let ghost parts = shard_records@;
        let n = shard_records.len();
        let mut rev = reversed(shard_records);
        let mut all: Vec<Record> = Vec::new();
        let mut i: usize = 0;
        while i < n
            invariant
                n == parts.len(),
                n == shard_ids@.len(),
                i <= n,
                rev@.len() + i == n,
                forall|k: int| 0 <= k < rev@.len() ==> #[trigger] rev@[k] == parts[n - 1 - k],
                all@ == self.visible_records(shard_ids@.take(i as int), parts.take(i as int)),
            decreases n - i,
        {
            match rev.pop() {
                Some(part) => {
                    proof {
                        assert(part == parts[i as int]);
                        assert(parts.take(i + 1).drop_last() =~= parts.take(i as int));
                        assert(shard_ids@.take(i + 1).drop_last() =~= shard_ids@.take(i as int));
                    }
                    let mut kept = self.visible_part(shard_ids[i], part);
                    all.append(&mut kept);
                },
                None => {},
            }
            i = i + 1;
        }
        proof {
            assert(parts.take(n as int) =~= parts);
            assert(shard_ids@.take(n as int) =~= shard_ids@);
            lemma_first_occurrences_first(all@);
        }
        let len = all.len();
        take_first_occurrences(all, len)
    }
}

proof fn lemma_no_id_in_filtered(s: Seq<Record>, pred: spec_fn(Record) -> bool, x: PointId)
    requires
        forall|r: Record| r.id == x ==> !pred(r),
    ensures
        forall|j: int| 0 <= j < s.filter(pred).len() ==> (#[trigger] s.filter(pred)[j]).id != x,
{
    broadcast use vstd::seq_lib::group_filter_ensures;

}

impl Collection {
    proof fn lemma_visible_first(
        &self,
        shard_ids: Seq<ShardId>,
        parts: Seq<Vec<Record>>,
        t: int,
        x: PointId,
        q: int,
    )
        requires
            self.resharding is Some,
            self.resharding->0.migrated@.contains(x),
            shard_ids.len() == parts.len(),
            0 <= t,
            forall|i: int| 0 <= i < shard_ids.len() && i != t ==> #[trigger] shard_ids[i]
                != self.resharding->0.shard_id,
            t < parts.len() ==> shard_ids[t] == self.resharding->0.shard_id && first_index_of(
                parts[t]@,
                x,
                q,
            ),
        ensures
            t < parts.len() ==> exists|p: int|
                first_index_of(self.visible_records(shard_ids, parts), x, p)
                    && self.visible_records(shard_ids, parts)[p] == parts[t]@[q],
            t >= parts.len() ==> forall|j: int|
                0 <= j < self.visible_records(shard_ids, parts).len() ==> (
                #[trigger] self.visible_records(shard_ids, parts)[j]).id != x,
        decreases parts.len(),
    {
        if parts.len() > 0 {
            let n = parts.len() - 1;
            let ids0 = shard_ids.drop_last();
            let parts0 = parts.drop_last();
            assert forall|i: int| 0 <= i < ids0.len() && i != t implies #[trigger] ids0[i]
                != self.resharding->0.shard_id by {
                assert(ids0[i] == shard_ids[i]);
            }
            if t < n {
                assert(parts0[t] == parts[t] && ids0[t] == shard_ids[t]);
            }
            self.lemma_visible_first(ids0, parts0, t, x, q);
            let v0 = self.visible_records(ids0, parts0);
            let last = self.visible(shard_ids.last(), parts.last()@);
            let v = self.visible_records(shard_ids, parts);
            assert(v == v0 + last);
            if t < n {
                let p = choose|p: int| first_index_of(v0, x, p) && v0[p] == parts0[t]@[q];
                assert(v[p] == v0[p]);
                assert(first_index_of(v, x, p));
            } else if t == n {
                assert(last == parts[t]@);
                let p = v0.len() + q;
                assert(v[p] == parts[t]@[q]);
                assert forall|j: int| 0 <= j < p implies #[trigger] v[j].id != x by {
                    if j < v0.len() {
                        assert(v[j] == v0[j]);
                    } else {
                        assert(v[j] == parts[t]@[j - v0.len()]);
                    }
                }
                assert(first_index_of(v, x, p));
            } else {
                assert(shard_ids[n] != self.resharding->0.shard_id);
                let pred = |r: Record| !self.resharding->0.migrated@.contains(r.id);
                lemma_no_id_in_filtered(parts.last()@, pred, x);
                assert(last == parts.last()@.filter(pred));
                assert forall|j: int| 0 <= j < v.len() implies (#[trigger] v[j]).id != x by {
                    if j < v0.len() {
                        assert(v[j] == v0[j]);
                    } else {
                        assert(v[j] == last[j - v0.len()]);
                    }
                }
            }
        }
    }

    /// Retrieval while a resharding is active gives a migrated point once, as
    /// the receiving shard's copy, even when an old shard still returns it:
    /// where the receiving shard answered once and its answer holds the point,
    /// exactly one retrieved record has that id, and it is the receiving
    /// shard's first record of the point.
    pub proof fn lemma_retrieve_migrated_once(
        &self,
        shard_ids: Seq<ShardId>,
        parts: Seq<Vec<Record>>,
        t: int,
        x: PointId,
    )
        requires
            self.resharding is Some,
            self.resharding->0.migrated@.contains(x),
            shard_ids.len() == parts.len(),
            0 <= t < parts.len(),
            shard_ids[t] == self.resharding->0.shard_id,
            forall|i: int| 0 <= i < shard_ids.len() && i != t ==> #[trigger] shard_ids[i]
                != self.resharding->0.shard_id,
            ids_of(parts[t]@).contains(x),
        ensures
            ({
                let out = first_occurrences(self.visible_records(shard_ids, parts));
                exists|k: int|
                    0 <= k < out.len() && out[k].id == x && (forall|j: int|
                        0 <= j < out.len() && j != k ==> #[trigger] out[j].id != x) && exists|
                        q: int,
                    | first_index_of(parts[t]@, x, q) && out[k] == parts[t]@[q]
            }),
    {
        let s = parts[t]@;
        let i0 = choose|i: int| 0 <= i < ids_of(s).len() && ids_of(s)[i] == x;
        assert(s[i0].id == x);
        lemma_first_index_exists(s, x, i0);
        let q = choose|q: int|
            0 <= q <= i0 && s[q].id == x && forall|j: int| 0 <= j < q ==> #[trigger] s[j].id != x;
        assert(first_index_of(s, x, q));
        self.lemma_visible_first(shard_ids, parts, t, x, q);
        let v = self.visible_records(shard_ids, parts);
        let p = choose|p: int| first_index_of(v, x, p) && v[p] == parts[t]@[q];
        let out = first_occurrences(v);
        lemma_first_occurrences_members(v);
        lemma_first_occurrences_first(v);
        assert(ids_of(v)[p] == x);
        assert(ids_of(v).contains(x));
        let k = choose|k: int| 0 <= k < ids_of(out).len() && ids_of(out)[k] == x;
        assert(out[k].id == x);
        let r = choose|r: int|
            0 <= r < v.len() && v[r] == out[k] && forall|j: int| 0 <= j < r ==> #[trigger] v[j].id != out[k].id;
        if r < p {
            assert(v[r].id == x);
        } else if p < r {
            assert(v[p].id != out[k].id);
        }
        assert(forall|j: int| 0 <= j < out.len() && j != k ==> #[trigger] out[j].id != x);
    }
}

} // verus!
