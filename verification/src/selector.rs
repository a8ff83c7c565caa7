//! Partition candidate selection: rank partitions as hot or cold candidates.
//!
//! Hot candidates are partitions with enough recently ingested L0 files,
//! ordered by recent L0 file count descending, ties broken by the newest
//! creation time descending, capped per shard. Cold candidates are partitions
//! whose newest L0 file is older than the cold threshold, or which have L1
//! files but no L0 at all, ordered oldest first. Partitions another worker is
//! already compacting are skipped.

use vstd::prelude::*;
use vstd::multiset::Multiset;
use vstd::seq_lib::group_to_multiset_ensures;
use crate::catalog::contains_id;

verus! {

/// Per-partition statistics the selector ranks by.
#[derive(Clone, Copy, Debug, PartialEq, Eq, Structural)]
pub struct PartitionStats {
    /// The partition.
    pub partition_id: u64,
    /// Number of live L0 files.
    pub l0_count: u64,
    /// Number of live L1 files.
    pub l1_count: u64,
    /// Number of L0 files created in the recent window.
    pub recent_l0_count: u64,
    /// Creation time of the newest L0 file; meaningless when `l0_count` is 0.
    pub newest_l0_created_at: i64,
    /// Largest creation time of any live file.
    pub max_created_at: i64,
}

/// Hot ranking: more recent L0 files first, ties broken by the newest creation
/// time, newest first.
pub open spec fn hot_ge(a: PartitionStats, b: PartitionStats) -> bool {
    a.recent_l0_count > b.recent_l0_count || (a.recent_l0_count == b.recent_l0_count
        && a.max_created_at >= b.max_created_at)
}

/// Cold ranking: oldest newest-L0 first.
pub open spec fn cold_le(a: PartitionStats, b: PartitionStats) -> bool {
    a.newest_l0_created_at <= b.newest_l0_created_at
}

/// Hot eligibility: enough recent L0 files, and no other worker on it.
pub open spec fn hot_eligible(
    s: PartitionStats,
    min_recent: u64,
    in_flight: Seq<u64>,
) -> bool {
    s.recent_l0_count >= min_recent && !contains_id(in_flight, s.partition_id)
}

/// Cold eligibility: the newest L0 is older than the threshold, or there are
/// L1 files and no L0; and no other worker on it.
pub open spec fn cold_eligible(
    s: PartitionStats,
    now: int,
    threshold: int,
    in_flight: Seq<u64>,
) -> bool {
    ((s.l0_count > 0 && s.newest_l0_created_at + threshold <= now) || (s.l0_count == 0
        && s.l1_count > 0)) && !contains_id(in_flight, s.partition_id)
}

/// The multiset of hot-eligible partitions.
pub open spec fn hot_eligible_of(
    stats: Seq<PartitionStats>,
    min_recent: u64,
    in_flight: Seq<u64>,
) -> Multiset<PartitionStats>
    decreases stats.len(),
{
    if stats.len() == 0 {
        Multiset::empty()
    } else {
        let rest = hot_eligible_of(stats.drop_last(), min_recent, in_flight);
        if hot_eligible(stats.last(), min_recent, in_flight) {
            rest.insert(stats.last())
        } else {
            rest
        }
    }
}

/// The multiset of cold-eligible partitions.
pub open spec fn cold_eligible_of(
    stats: Seq<PartitionStats>,
    now: int,
    threshold: int,
    in_flight: Seq<u64>,
) -> Multiset<PartitionStats>
    decreases stats.len(),
{
    if stats.len() == 0 {
        Multiset::empty()
    } else {
        let rest = cold_eligible_of(stats.drop_last(), now, threshold, in_flight);
        if cold_eligible(stats.last(), now, threshold, in_flight) {
            rest.insert(stats.last())
        } else {
            rest
        }
    }
}

/// Sorted for hot selection.
pub open spec fn hot_sorted(s: Seq<PartitionStats>) -> bool {
    forall|i: int, j: int| 0 <= i < j < s.len() ==> hot_ge(s[i], s[j])
}

/// Sorted for cold selection.
pub open spec fn cold_sorted(s: Seq<PartitionStats>) -> bool {
    forall|i: int, j: int| 0 <= i < j < s.len() ==> cold_le(s[i], s[j])
}

/// Insert into a hot-sorted vector, keeping the order.
fn insert_hot(v: &mut Vec<PartitionStats>, x: PartitionStats)
    requires
        hot_sorted(old(v)@),
    ensures
        hot_sorted(final(v)@),
        final(v)@.to_multiset() == old(v)@.to_multiset().insert(x),
{
    broadcast use group_to_multiset_ensures;

    let ghost orig = v@;
    let mut i: usize = v.len();
    while i > 0 && !(v[i - 1].recent_l0_count > x.recent_l0_count || (v[i - 1].recent_l0_count
        == x.recent_l0_count && v[i - 1].max_created_at >= x.max_created_at))
        invariant
            0 <= i <= v.len(),
            v@ == orig,
            hot_sorted(v@),
            forall|j: int| i <= j < v@.len() ==> !hot_ge(v@[j], x),
        decreases i,
    {
        i = i - 1;
    }
    proof {
        assert forall|j: int| i <= j < orig.len() implies hot_ge(x, orig[j]) by {
            assert(!hot_ge(orig[j], x));
        }
        assert forall|p: int| 0 <= p < i implies hot_ge(orig[p], x) by {
            assert(hot_ge(orig[p], orig[i - 1]));
        }
        assert(orig.insert(i as int, x).to_multiset() == orig.to_multiset().insert(x));
    }
    v.insert(i, x);
}

/// Insert into a cold-sorted vector, keeping the order.
fn insert_cold(v: &mut Vec<PartitionStats>, x: PartitionStats)
    requires
        cold_sorted(old(v)@),
    ensures
        cold_sorted(final(v)@),
        final(v)@.to_multiset() == old(v)@.to_multiset().insert(x),
{
    broadcast use group_to_multiset_ensures;

    let ghost orig = v@;
    let mut i: usize = v.len();
    while i > 0 && !(v[i - 1].newest_l0_created_at <= x.newest_l0_created_at)
        invariant
            0 <= i <= v.len(),
            v@ == orig,
            cold_sorted(v@),
            forall|j: int| i <= j < v@.len() ==> !cold_le(v@[j], x),
        decreases i,
    {
        i = i - 1;
    }
    proof {
        assert forall|j: int| i <= j < orig.len() implies cold_le(x, orig[j]) by {
            assert(!cold_le(orig[j], x));
        }
        assert forall|p: int| 0 <= p < i implies cold_le(orig[p], x) by {
            assert(cold_le(orig[p], orig[i - 1]));
        }
        assert(orig.insert(i as int, x).to_multiset() == orig.to_multiset().insert(x));
    }
    v.insert(i, x);
}

/// Take at most the first `n` elements.
fn take_prefix(v: &Vec<PartitionStats>, n: usize) -> (r: Vec<PartitionStats>)
    ensures
        r@ == v@.take(if n as int <= v@.len() {
            n as int
        } else {
            v@.len() as int
        }),
{
    let m = if n <= v.len() {
        n
    } else {
        v.len()
    };
    let mut r: Vec<PartitionStats> = Vec::new();
    let mut i: usize = 0;
    while i < m
        invariant
            0 <= i <= m <= v@.len(),
            r@ == v@.take(i as int),
        decreases m - i,
    {
        proof {
            assert(v@.take(i + 1) =~= v@.take(i as int).push(v@[i as int]));
        }
        r.push(v[i]);
        i = i + 1;
    }
    r
}

/// Rank hot candidates: the eligible partitions in hot order, capped at
/// `max_per_shard`.
pub fn hot_partitions_to_compact(
    stats: &Vec<PartitionStats>,
    max_per_shard: usize,
    min_recent: u64,
    in_flight: &Vec<u64>,
) -> (r: Vec<PartitionStats>)
    ensures
        exists|full: Seq<PartitionStats>|
            {
                &&& #[trigger] full.to_multiset() == hot_eligible_of(
                    stats@,
                    min_recent,
                    in_flight@,
                )
                &&& hot_sorted(full)
                &&& r@ == full.take(
                    if max_per_shard as int <= full.len() {
                        max_per_shard as int
                    } else {
                        full.len() as int
                    },
                )
            },
{
    broadcast use group_to_multiset_ensures;

    let mut sorted: Vec<PartitionStats> = Vec::new();
    proof {
        assert(stats@.take(0) =~= Seq::<PartitionStats>::empty());
        assert(sorted@.to_multiset() =~= Multiset::empty());
    }
    let mut i: usize = 0;
    while i < stats.len()
        invariant
            0 <= i <= stats@.len(),
            hot_sorted(sorted@),
            sorted@.to_multiset() == hot_eligible_of(stats@.take(i as int), min_recent, in_flight@),
        decreases stats@.len() - i,
    {
        let s = stats[i];
        proof {
            assert(stats@.take(i + 1).drop_last() =~= stats@.take(i as int));
            assert(stats@.take(i + 1).last() == s);
        }
        if s.recent_l0_count >= min_recent && !crate::catalog::contains_id_exec_pub(
            in_flight,
            s.partition_id,
        ) {
            insert_hot(&mut sorted, s);
        }
        i = i + 1;
    }
    proof {
        assert(stats@.take(stats@.len() as int) =~= stats@);
    }
    let r = take_prefix(&sorted, max_per_shard);
    proof {
        let ghost full = sorted@;
        assert(full.to_multiset() == hot_eligible_of(stats@, min_recent, in_flight@) && hot_sorted(
            full,
        ) && r@ == full.take(
            if max_per_shard as int <= full.len() {
                max_per_shard as int
            } else {
                full.len() as int
            },
        ));
    }
    r
}

/// Rank cold candidates: the eligible partitions oldest first, capped at
/// `max_per_shard`.
pub fn cold_partitions_to_compact(
    stats: &Vec<PartitionStats>,
    max_per_shard: usize,
    now: i64,
    threshold: i64,
    in_flight: &Vec<u64>,
) -> (r: Vec<PartitionStats>)
    ensures
        exists|full: Seq<PartitionStats>|
            {
                &&& #[trigger] full.to_multiset() == cold_eligible_of(
                    stats@,
                    now as int,
                    threshold as int,
                    in_flight@,
                )
                &&& cold_sorted(full)
                &&& r@ == full.take(
                    if max_per_shard as int <= full.len() {
                        max_per_shard as int
                    } else {
                        full.len() as int
                    },
                )
            },
{
    broadcast use group_to_multiset_ensures;

    let mut sorted: Vec<PartitionStats> = Vec::new();
    proof {
        assert(stats@.take(0) =~= Seq::<PartitionStats>::empty());
        assert(sorted@.to_multiset() =~= Multiset::empty());
    }
    let mut i: usize = 0;
    while i < stats.len()
        invariant
            0 <= i <= stats@.len(),
            cold_sorted(sorted@),
            sorted@.to_multiset() == cold_eligible_of(
                stats@.take(i as int),
                now as int,
                threshold as int,
                in_flight@,
            ),
        decreases stats@.len() - i,
    {
        let s = stats[i];
        proof {
            assert(stats@.take(i + 1).drop_last() =~= stats@.take(i as int));
            assert(stats@.take(i + 1).last() == s);
        }
        let aged = s.l0_count > 0 && (s.newest_l0_created_at as i128) + (threshold as i128)
            <= (now as i128);
        let no_l0 = s.l0_count == 0 && s.l1_count > 0;
        if (aged || no_l0) && !crate::catalog::contains_id_exec_pub(in_flight, s.partition_id) {
            insert_cold(&mut sorted, s);
        }
        i = i + 1;
    }
    proof {
        assert(stats@.take(stats@.len() as int) =~= stats@);
    }
    let r = take_prefix(&sorted, max_per_shard);
    proof {
        let ghost full = sorted@;
        assert(full.to_multiset() == cold_eligible_of(
            stats@,
            now as int,
            threshold as int,
            in_flight@,
        ) && cold_sorted(full) && r@ == full.take(
            if max_per_shard as int <= full.len() {
                max_per_shard as int
            } else {
                full.len() as int
            },
        ));
    }
    r
}

} // verus!
