//! Count: the total of the shards' counts, and why it counts every point
//! once while a resharding is active.

use vstd::prelude::*;
use crate::types::{Collection, CountResult, PointId};

verus! {

impl Collection {
    /// Total of the shards' counts. While a resharding is active, each shard
    /// but the receiving one counts without the migrated points
    /// (`uses_resharding_filter`), so that every point is counted once.
    pub fn count(shard_counts: &Vec<usize>) -> (r: CountResult)
        requires
            total(shard_counts@) <= usize::MAX,
        ensures
            r.count == total(shard_counts@),
    {
        let mut count: usize = 0;
        let mut i: usize = 0;
        while i < shard_counts.len()
            invariant
                i <= shard_counts@.len(),
                count == total(shard_counts@.take(i as int)),
                total(shard_counts@) <= usize::MAX,
            decreases shard_counts@.len() - i,
        {
            proof {
                assert(shard_counts@.take(i + 1).drop_last() =~= shard_counts@.take(i as int));
                lemma_total_prefix(shard_counts@, i + 1);
            }
            count = count + shard_counts[i];
            i = i + 1;
        }
        proof {
            assert(shard_counts@.take(i as int) =~= shard_counts@);
        }
        CountResult { count }
    }
}

/// Sum of a sequence of counts.
pub open spec fn total(s: Seq<usize>) -> nat
    decreases s.len(),
{
    if s.len() == 0 {
        0
    } else {
        total(s.drop_last()) + s.last() as nat
    }
}

proof fn lemma_total_prefix(s: Seq<usize>, i: int)
    requires
        0 <= i <= s.len(),
    ensures
        total(s.take(i)) <= total(s),
    decreases s.len(),
{
    if i < s.len() {
        assert(s.drop_last().take(i) =~= s.take(i));
        lemma_total_prefix(s.drop_last(), i);
    } else {
        assert(s.take(i) =~= s);
    }
}

/// The points held by a sequence of shards.
pub open spec fn union_of(shards: Seq<Set<PointId>>) -> Set<PointId>
    decreases shards.len(),
{
    if shards.len() == 0 {
        Set::empty()
    } else {
        union_of(shards.drop_last()).union(shards.last())
    }
}

/// Sum of what each shard counts when it leaves out the migrated points.
pub open spec fn counts_without_migrated(shards: Seq<Set<PointId>>, migrated: Set<PointId>) -> nat
    decreases shards.len(),
{
    if shards.len() == 0 {
        0
    } else {
        counts_without_migrated(shards.drop_last(), migrated) + shards.last().difference(
            migrated,
        ).len()
    }
}

/// No point is held by two of the shards.
pub open spec fn pairwise_disjoint(shards: Seq<Set<PointId>>) -> bool {
    forall|i: int, j: int|
        0 <= i < j < shards.len() ==> (#[trigger] shards[i]).disjoint(#[trigger] shards[j])
}

proof fn lemma_union_of(shards: Seq<Set<PointId>>)
    requires
        forall|i: int| 0 <= i < shards.len() ==> (#[trigger] shards[i]).finite(),
    ensures
        union_of(shards).finite(),
        forall|x: PointId|
            #[trigger] union_of(shards).contains(x) <==> exists|i: int|
                0 <= i < shards.len() && (#[trigger] shards[i]).contains(x),
    decreases shards.len(),
{
    if shards.len() > 0 {
        let t = shards.drop_last();
        assert forall|i: int| 0 <= i < t.len() implies (#[trigger] t[i]).finite() by {
            assert(t[i] == shards[i]);
        }
        lemma_union_of(t);
        assert forall|x: PointId| #[trigger] union_of(shards).contains(x) <==> exists|i: int|
            0 <= i < shards.len() && (#[trigger] shards[i]).contains(x) by {
            if union_of(t).contains(x) {
                let i = choose|i: int| 0 <= i < t.len() && (#[trigger] t[i]).contains(x);
                assert(shards[i] == t[i]);
            }
            if exists|i: int| 0 <= i < shards.len() && (#[trigger] shards[i]).contains(x) {
                let i = choose|i: int| 0 <= i < shards.len() && (#[trigger] shards[i]).contains(x);
                if i < t.len() {
                    assert(t[i] == shards[i]);
                }
            }
        }
    }
}

proof fn lemma_counts_without_migrated(shards: Seq<Set<PointId>>, migrated: Set<PointId>)
    requires
        forall|i: int| 0 <= i < shards.len() ==> (#[trigger] shards[i]).finite(),
        pairwise_disjoint(shards),
    ensures
        union_of(shards).difference(migrated).len() == counts_without_migrated(shards, migrated),
    decreases shards.len(),
{
    if shards.len() == 0 {
        assert(union_of(shards).difference(migrated) =~= Set::empty());
    } else {
        let t = shards.drop_last();
        let last = shards.last();
        assert forall|i: int| 0 <= i < t.len() implies (#[trigger] t[i]).finite() by {
            assert(t[i] == shards[i]);
        }
        assert forall|i: int, j: int| 0 <= i < j < t.len() implies (#[trigger] t[i]).disjoint(
            #[trigger] t[j],
        ) by {
            assert(t[i] == shards[i] && t[j] == shards[j]);
        }
        lemma_counts_without_migrated(t, migrated);
        lemma_union_of(t);
        let a = union_of(t).difference(migrated);
        let b = last.difference(migrated);
        assert(a.disjoint(b)) by {
            assert forall|x: PointId| a.contains(x) implies !b.contains(x) by {
                let i = choose|i: int| 0 <= i < t.len() && (#[trigger] t[i]).contains(x);
                assert(t[i] == shards[i]);
                assert(shards[i].disjoint(shards[shards.len() - 1]));
            }
        }
        assert(union_of(shards).difference(migrated) =~= a + b);
        vstd::set_lib::lemma_set_disjoint_lens(a, b);
    }
}

/// Counting while a resharding is active counts every point once. The
/// shards other than the receiving one hold the points of the collection,
/// no point on two of them, and count without the migrated points; the
/// receiving shard holds the migrated points and counts them all. The total
/// is the number of points of the collection.
pub proof fn lemma_resharding_count_exact(
    old_shards: Seq<Set<PointId>>,
    target: Set<PointId>,
    migrated: Set<PointId>,
)
    requires
        forall|i: int| 0 <= i < old_shards.len() ==> (#[trigger] old_shards[i]).finite(),
        pairwise_disjoint(old_shards),
        target == union_of(old_shards).intersect(migrated),
    ensures
        counts_without_migrated(old_shards, migrated) + target.len() == union_of(old_shards).len(),
{
    lemma_union_of(old_shards);
    lemma_counts_without_migrated(old_shards, migrated);
    let u = union_of(old_shards);
    let a = u.difference(migrated);
    assert(a.disjoint(target));
    assert(u =~= a + target);
    vstd::set_lib::lemma_len_difference(u, migrated);
    vstd::set_lib::lemma_len_intersect(u, migrated);
    vstd::set_lib::lemma_set_disjoint_lens(a, target);
}

} // verus!
