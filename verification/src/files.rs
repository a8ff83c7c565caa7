//! File metadata as the compactor sees it, and the per-partition lookup that
//! groups live files by compaction level in deterministic order.

use vstd::prelude::*;
use vstd::seq_lib::group_seq_properties;
use vstd::seq_lib::group_to_multiset_ensures;
use vstd::multiset::Multiset;

verus! {

/// Compaction level of a file.
///
/// Levels only ever increase: ingest writes `Initial` (L0) files, one round of
/// compaction produces `FileNonOverlapped` (L1) files that are pairwise
/// non-overlapping in time, and full cold compaction produces `Final` (L2)
/// files.
#[derive(Clone, Copy, Debug, PartialEq, Eq, Structural)]
pub enum CompactionLevel {
    /// As written by ingest (L0); may overlap anything.
    Initial,
    /// Non-overlapping within the partition (L1).
    FileNonOverlapped,
    /// Fully compacted (L2).
    Final,
}

impl CompactionLevel {
    /// Numeric rank of the level, for monotonicity statements.
    pub open spec fn spec_rank(self) -> int {
        match self {
            CompactionLevel::Initial => 0,
            CompactionLevel::FileNonOverlapped => 1,
            CompactionLevel::Final => 2,
        }
    }

    /// Numeric rank of the level.
    pub fn rank(self) -> (r: u8)
        ensures
            r as int == self.spec_rank(),
    {
        match self {
            CompactionLevel::Initial => 0,
            CompactionLevel::FileNonOverlapped => 1,
            CompactionLevel::Final => 2,
        }
    }
}

/// Catalog metadata of one immutable parquet file.
#[derive(Clone, Copy, Debug, PartialEq, Eq, Structural)]
pub struct FileMeta {
    /// Catalog-assigned file id, unique within a catalog.
    pub id: u64,
    /// Partition the file belongs to.
    pub partition_id: u64,
    /// Object-store id the blob was written under.
    pub object_store_id: u128,
    /// Smallest row timestamp in the file (nanoseconds).
    pub min_time: i64,
    /// Largest row timestamp in the file (nanoseconds).
    pub max_time: i64,
    /// Largest sequence number of any write that contributed to the file.
    pub max_sequence_number: i64,
    /// Number of rows.
    pub row_count: u64,
    /// Size of the encoded file in bytes.
    pub file_size_bytes: u64,
    /// Level the file was written at.
    pub compaction_level: CompactionLevel,
    /// Creation time (nanoseconds).
    pub created_at: i64,
    /// Files flagged for deletion stay catalog-visible but are ignored by
    /// compaction until the garbage collector erases them.
    pub to_delete: bool,
}

impl FileMeta {
    /// A file is well formed when its time range is an interval.
    pub open spec fn wf(self) -> bool {
        self.min_time <= self.max_time
    }

    /// Two files overlap when their time ranges intersect.
    pub open spec fn overlaps(self, other: FileMeta) -> bool {
        self.min_time <= other.max_time && other.min_time <= self.max_time
    }

    /// Overlap test on the closed time ranges of two files.
    pub fn overlaps_exec(&self, other: &FileMeta) -> (r: bool)
        ensures
            r == self.overlaps(*other),
    {
        self.min_time <= other.max_time && other.min_time <= self.max_time
    }
}

/// The deterministic lookup order: `(max_sequence_number ASC, min_time ASC)`.
pub open spec fn lookup_le(a: FileMeta, b: FileMeta) -> bool {
    a.max_sequence_number < b.max_sequence_number || (a.max_sequence_number
        == b.max_sequence_number && a.min_time <= b.min_time)
}

/// Decide the lookup order between two files.
pub fn lookup_le_exec(a: &FileMeta, b: &FileMeta) -> (r: bool)
    ensures
        r == lookup_le(*a, *b),
{
    a.max_sequence_number < b.max_sequence_number || (a.max_sequence_number
        == b.max_sequence_number && a.min_time <= b.min_time)
}

/// A sequence of files sorted in lookup order.
pub open spec fn lookup_sorted(s: Seq<FileMeta>) -> bool {
    forall|i: int, j: int| 0 <= i < j < s.len() ==> lookup_le(s[i], s[j])
}

/// The live files of one partition, grouped by compaction level, each group in
/// lookup order.
pub struct ParquetFilesForCompaction {
    /// Live L0 files.
    pub level_0: Vec<FileMeta>,
    /// Live L1 files.
    pub level_1: Vec<FileMeta>,
    /// Live L2 files.
    pub level_2: Vec<FileMeta>,
}

/// A file is live at `level` when it is not flagged for deletion and sits at
/// that level.
pub open spec fn live_at(f: FileMeta, level: CompactionLevel) -> bool {
    !f.to_delete && f.compaction_level == level
}

/// The multiset of files of `files` that are live at `level`.
pub open spec fn live_of(files: Seq<FileMeta>, level: CompactionLevel) -> Multiset<FileMeta>
    decreases files.len(),
{
    if files.len() == 0 {
        Multiset::empty()
    } else {
        let rest = live_of(files.drop_last(), level);
        if live_at(files.last(), level) {
            rest.insert(files.last())
        } else {
            rest
        }
    }
}

impl ParquetFilesForCompaction {
    /// What the lookup promises: each group holds exactly the live files of
    /// its level, in lookup order.
    pub open spec fn is_lookup_of(self, files: Seq<FileMeta>) -> bool {
        &&& self.level_0@.to_multiset() == live_of(files, CompactionLevel::Initial)
        &&& self.level_1@.to_multiset() == live_of(files, CompactionLevel::FileNonOverlapped)
        &&& self.level_2@.to_multiset() == live_of(files, CompactionLevel::Final)
        &&& lookup_sorted(self.level_0@)
        &&& lookup_sorted(self.level_1@)
        &&& lookup_sorted(self.level_2@)
    }
}

/// Insert `x` into a vector already in lookup order, keeping the order.
fn insert_sorted(v: &mut Vec<FileMeta>, x: FileMeta)
    requires
        lookup_sorted(old(v)@),
    ensures
        lookup_sorted(final(v)@),
        final(v)@.to_multiset() == old(v)@.to_multiset().insert(x),
{
    let ghost orig = v@;
    let mut i: usize = v.len();
    while i > 0 && !lookup_le_exec(&v[i - 1], &x)
        invariant
            0 <= i <= v.len(),
            v@ == orig,
            lookup_sorted(v@),
            forall|j: int| i <= j < v@.len() ==> !lookup_le(v@[j], x),
        decreases i,
    {
        i = i - 1;
    }
    proof {
        broadcast use group_to_multiset_ensures;

        assert forall|j: int| i <= j < orig.len() implies lookup_le(x, orig[j]) by {
            assert(!lookup_le(orig[j], x));
        }
        assert forall|p: int| 0 <= p < i implies lookup_le(orig[p], x) by {
            assert(lookup_le(orig[p], orig[i - 1]));
        }
        assert(orig.insert(i as int, x).to_multiset() == orig.to_multiset().insert(x));
    }
    v.insert(i, x);
}

/// Group the live files of a partition by compaction level and sort each group
/// by `(max_sequence_number ASC, min_time ASC)`, as downstream selection
/// expects. Files flagged for deletion are dropped.
pub fn files_for_compaction(files: &Vec<FileMeta>) -> (r: ParquetFilesForCompaction)
    ensures
        r.is_lookup_of(files@),
{
    broadcast use group_to_multiset_ensures;

    let mut r = ParquetFilesForCompaction { level_0: Vec::new(), level_1: Vec::new(), level_2: Vec::new() };
    let mut i: usize = 0;
    while i < files.len()
        invariant
            0 <= i <= files@.len(),
            lookup_sorted(r.level_0@),
            lookup_sorted(r.level_1@),
            lookup_sorted(r.level_2@),
            r.level_0@.to_multiset() == live_of(files@.take(i as int), CompactionLevel::Initial),
            r.level_1@.to_multiset() == live_of(
                files@.take(i as int),
                CompactionLevel::FileNonOverlapped,
            ),
            r.level_2@.to_multiset() == live_of(files@.take(i as int), CompactionLevel::Final),
        decreases files@.len() - i,
    {
        let f = files[i];
        proof {
            assert(files@.take(i + 1).drop_last() =~= files@.take(i as int));
            assert(files@.take(i + 1).last() == f);
        }
        if !f.to_delete {
            match f.compaction_level {
                CompactionLevel::Initial => insert_sorted(&mut r.level_0, f),
                CompactionLevel::FileNonOverlapped => insert_sorted(&mut r.level_1, f),
                CompactionLevel::Final => insert_sorted(&mut r.level_2, f),
            }
        }
        i = i + 1;
    }
    proof {
        assert(files@.take(files@.len() as int) =~= files@);
    }
    r
}

} // verus!
