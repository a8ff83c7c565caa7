//! Per-partition file filtering: pick the files one compaction operation will
//! read, under a memory budget (hot partitions) or size and count thresholds
//! (cold partitions).

use vstd::prelude::*;
use crate::files::{CompactionLevel, FileMeta, ParquetFilesForCompaction};

verus! {

/// Column types a table schema can hold.
#[derive(Clone, Copy, Debug, PartialEq, Eq, Structural)]
pub enum ColumnType {
    /// Boolean field.
    Bool,
    /// Signed integer field.
    I64,
    /// Unsigned integer field.
    U64,
    /// Floating-point field.
    F64,
    /// String field.
    String,
    /// Tag column (dictionary-encoded string).
    Tag,
    /// The timestamp column.
    Time,
}

/// Number of columns of one type in a table schema.
#[derive(Clone, Copy, Debug, PartialEq, Eq, Structural)]
pub struct ColumnTypeCount {
    /// The column type.
    pub col_type: ColumnType,
    /// How many columns of the table have that type.
    pub count: u64,
}

/// Assumed decompressed in-memory width of one value of a column type, in
/// bytes. Strings and tags are charged a flat mean width.
pub open spec fn spec_column_width(t: ColumnType) -> u64 {
    match t {
        ColumnType::Bool => 1,
        ColumnType::I64 => 8,
        ColumnType::U64 => 8,
        ColumnType::F64 => 8,
        ColumnType::String => 64,
        ColumnType::Tag => 64,
        ColumnType::Time => 8,
    }
}

/// Assumed width of one value of a column type.
pub fn column_width(t: ColumnType) -> (r: u64)
    ensures
        r == spec_column_width(t),
{
    match t {
        ColumnType::Bool => 1,
        ColumnType::I64 => 8,
        ColumnType::U64 => 8,
        ColumnType::F64 => 8,
        ColumnType::String => 64,
        ColumnType::Tag => 64,
        ColumnType::Time => 8,
    }
}

/// Addition that sticks at `u64::MAX`: an estimate past the largest
/// representable size can only mean "does not fit".
pub open spec fn sat_add(a: u64, b: u64) -> u64 {
    if a + b > u64::MAX {
        u64::MAX
    } else {
        (a + b) as u64
    }
}

/// Multiplication that sticks at `u64::MAX`.
pub open spec fn sat_mul(a: u64, b: u64) -> u64 {
    if a * b > u64::MAX {
        u64::MAX
    } else {
        (a * b) as u64
    }
}

pub fn sat_add_exec(a: u64, b: u64) -> (r: u64)
    ensures
        r == sat_add(a, b),
{
    a.saturating_add(b)
}

fn sat_mul_exec(a: u64, b: u64) -> (r: u64)
    ensures
        r == sat_mul(a, b),
{
    match a.checked_mul(b) {
        Some(v) => v,
        None => u64::MAX,
    }
}

/// Estimated bytes one row occupies in memory, from the table's column-type
/// counts.
pub open spec fn spec_bytes_per_row(cols: Seq<ColumnTypeCount>) -> u64
    decreases cols.len(),
{
    if cols.len() == 0 {
        0
    } else {
        sat_add(
            spec_bytes_per_row(cols.drop_last()),
            sat_mul(cols.last().count, spec_column_width(cols.last().col_type)),
        )
    }
}

/// Estimated decompressed in-memory footprint of one file: its row count times
/// the estimated bytes per row.
pub open spec fn spec_estimate_file(f: FileMeta, cols: Seq<ColumnTypeCount>) -> u64 {
    sat_mul(f.row_count, spec_bytes_per_row(cols))
}

/// Estimated footprint of a set of files.
pub open spec fn spec_estimate_files(files: Seq<FileMeta>, cols: Seq<ColumnTypeCount>) -> u64
    decreases files.len(),
{
    if files.len() == 0 {
        0
    } else {
        sat_add(
            spec_estimate_files(files.drop_last(), cols),
            spec_estimate_file(files.last(), cols),
        )
    }
}

/// Estimated decompressed in-memory footprint of one file.
pub fn estimate_file_bytes(f: &FileMeta, cols: &Vec<ColumnTypeCount>) -> (r: u64)
    ensures
        r == spec_estimate_file(*f, cols@),
{
    let mut per_row: u64 = 0;
    let mut i: usize = 0;
    while i < cols.len()
        invariant
            0 <= i <= cols@.len(),
            per_row == spec_bytes_per_row(cols@.take(i as int)),
        decreases cols@.len() - i,
    {
        proof {
            assert(cols@.take(i + 1).drop_last() =~= cols@.take(i as int));
        }
        per_row = sat_add_exec(
            per_row,
            sat_mul_exec(cols[i].count, column_width(cols[i].col_type)),
        );
        i = i + 1;
    }
    proof {
        assert(cols@.take(cols@.len() as int) =~= cols@);
    }
    sat_mul_exec(f.row_count, per_row)
}

/// Does `f` overlap in time any file of `l0s`?
pub open spec fn overlaps_any(f: FileMeta, l0s: Seq<FileMeta>) -> bool
    decreases l0s.len(),
{
    if l0s.len() == 0 {
        false
    } else {
        overlaps_any(f, l0s.drop_last()) || f.overlaps(l0s.last())
    }
}

/// Overlap test against a whole group of files.
pub fn overlaps_any_exec(f: &FileMeta, l0s: &Vec<FileMeta>, n: usize) -> (r: bool)
    requires
        n <= l0s@.len(),
    ensures
        r == overlaps_any(*f, l0s@.take(n as int)),
{
    let mut i: usize = 0;
    let mut found = false;
    while i < n
        invariant
            0 <= i <= n <= l0s@.len(),
            found == overlaps_any(*f, l0s@.take(i as int)),
        decreases n - i,
    {
        proof {
            assert(l0s@.take(i + 1).drop_last() =~= l0s@.take(i as int));
        }
        if f.overlaps_exec(&l0s[i]) {
            found = true;
        }
        i = i + 1;
    }
    found
}

/// The subsequence of `l1` whose elements overlap some member of `l0s`, in
/// `l1`'s own order.
pub open spec fn overlapping_l1(l1: Seq<FileMeta>, l0s: Seq<FileMeta>) -> Seq<FileMeta>
    decreases l1.len(),
{
    if l1.len() == 0 {
        Seq::empty()
    } else {
        let rest = overlapping_l1(l1.drop_last(), l0s);
        if overlaps_any(l1.last(), l0s) {
            rest.push(l1.last())
        } else {
            rest
        }
    }
}

/// Collect the L1 files that overlap one of the first `k` L0 files.
fn collect_overlapping_l1(l1: &Vec<FileMeta>, l0: &Vec<FileMeta>, k: usize) -> (r: Vec<FileMeta>)
    requires
        k <= l0@.len(),
    ensures
        r@ == overlapping_l1(l1@, l0@.take(k as int)),
{
    let mut r: Vec<FileMeta> = Vec::new();
    let mut i: usize = 0;
    while i < l1.len()
        invariant
            0 <= i <= l1@.len(),
            k <= l0@.len(),
            r@ == overlapping_l1(l1@.take(i as int), l0@.take(k as int)),
        decreases l1@.len() - i,
    {
        proof {
            assert(l1@.take(i + 1).drop_last() =~= l1@.take(i as int));
        }
        if overlaps_any_exec(&l1[i], l0, k) {
            r.push(l1[i]);
        }
        i = i + 1;
    }
    proof {
        assert(l1@.take(l1@.len() as int) =~= l1@);
    }
    r
}

/// The files one hot compaction operation over the first `k` L0 files would
/// read: those L0 files plus every L1 file overlapping one of them.
pub open spec fn hot_selection(l0: Seq<FileMeta>, l1: Seq<FileMeta>, k: int) -> Seq<FileMeta> {
    l0.take(k) + overlapping_l1(l1, l0.take(k))
}

/// Estimated footprint of that selection.
pub open spec fn hot_cost(
    l0: Seq<FileMeta>,
    l1: Seq<FileMeta>,
    k: int,
    cols: Seq<ColumnTypeCount>,
) -> u64 {
    spec_estimate_files(hot_selection(l0, l1, k), cols)
}

/// Total encoded size of a set of files, saturating at `u64::MAX`.
pub open spec fn total_file_size(files: Seq<FileMeta>) -> u64
    decreases files.len(),
{
    if files.len() == 0 {
        0
    } else {
        sat_add(total_file_size(files.drop_last()), files.last().file_size_bytes)
    }
}

/// Total encoded size of a set of files.
pub fn total_file_size_exec(files: &Vec<FileMeta>) -> (r: u64)
    ensures
        r == total_file_size(files@),
{
    let mut size: u64 = 0;
    let mut i: usize = 0;
    while i < files.len()
        invariant
            0 <= i <= files@.len(),
            size == total_file_size(files@.take(i as int)),
        decreases files@.len() - i,
    {
        proof {
            assert(files@.take(i + 1).drop_last() =~= files@.take(i as int));
        }
        size = sat_add_exec(size, files[i].file_size_bytes);
        i = i + 1;
    }
    proof {
        assert(files@.take(files@.len() as int) =~= files@);
    }
    size
}

/// The files one cold compaction operation over the first `k` L0 files would
/// read.
pub open spec fn cold_selection(l0: Seq<FileMeta>, l1: Seq<FileMeta>, k: int) -> Seq<FileMeta> {
    l0.take(k) + overlapping_l1(l1, l0.take(k))
}

/// The cold filter stops growing the selection once it reaches either
/// threshold.
pub open spec fn cold_crossed(
    l0: Seq<FileMeta>,
    l1: Seq<FileMeta>,
    k: int,
    max_size: u64,
    max_count: u64,
) -> bool {
    total_file_size(cold_selection(l0, l1, k)) >= max_size || cold_selection(l0, l1, k).len()
        >= max_count
}

/// Materialise `cold_selection(l0, l1, k)`.
fn build_selection(l0: &Vec<FileMeta>, l1: &Vec<FileMeta>, k: usize) -> (r: Vec<FileMeta>)
    requires
        k <= l0@.len(),
    ensures
        r@ == cold_selection(l0@, l1@, k as int),
{
    let chosen_l1 = collect_overlapping_l1(l1, l0, k);
    let mut files = Vec::new();
    let mut i: usize = 0;
    while i < k
        invariant
            0 <= i <= k <= l0@.len(),
            files@ == l0@.take(i as int),
        decreases k - i,
    {
        proof {
            assert(l0@.take(i + 1) =~= l0@.take(i as int).push(l0@[i as int]));
        }
        files.push(l0[i]);
        i = i + 1;
    }
    let mut j: usize = 0;
    while j < chosen_l1.len()
        invariant
            0 <= j <= chosen_l1@.len(),
            k <= l0@.len(),
            files@ == l0@.take(k as int) + chosen_l1@.take(j as int),
        decreases chosen_l1@.len() - j,
    {
        proof {
            assert(l0@.take(k as int) + chosen_l1@.take(j + 1) =~= (l0@.take(k as int)
                + chosen_l1@.take(j as int)).push(chosen_l1@[j as int]));
        }
        files.push(chosen_l1[j]);
        j = j + 1;
    }
    proof {
        assert(chosen_l1@.take(chosen_l1@.len() as int) =~= chosen_l1@);
    }
    files
}

/// Select the input files for one cold compaction operation.
///
/// L0 files are taken greedily in lookup order, each dragging in the L1 files
/// that overlap the L0 files taken so far. The selection grows while its
/// cumulative size stays under `max_size` and its file count under
/// `max_count`; the thresholds are allowed to be crossed by the last unit
/// taken.
pub fn filter_cold_parquet_files(
    lookup: &ParquetFilesForCompaction,
    max_size: u64,
    max_count: u64,
) -> (r: Vec<FileMeta>)
    ensures
        exists|k: int|
            {
                &&& 0 <= k <= lookup.level_0@.len()
                &&& r@ == cold_selection(lookup.level_0@, lookup.level_1@, k)
                &&& forall|j: int|
                    0 <= j < k ==> !cold_crossed(
                        lookup.level_0@,
                        lookup.level_1@,
                        j,
                        max_size,
                        max_count,
                    )
                &&& (k < lookup.level_0@.len() ==> cold_crossed(
                    lookup.level_0@,
                    lookup.level_1@,
                    k,
                    max_size,
                    max_count,
                ))
            },
{
    let l0 = &lookup.level_0;
    let l1 = &lookup.level_1;
    let mut k: usize = 0;
    let mut stop = false;
    while k < l0.len() && !stop
        invariant
            0 <= k <= l0@.len(),
            forall|j: int|
                0 <= j < k ==> !cold_crossed(l0@, l1@, j, max_size, max_count),
            stop ==> k < l0@.len() && cold_crossed(l0@, l1@, k as int, max_size, max_count),
        decreases l0@.len() - k + if stop {
            0int
        } else {
            1int
        },
    {
        let sel = build_selection(l0, l1, k);
        let size = total_file_size_exec(&sel);
        if size >= max_size || sel.len() as u64 >= max_count {
            stop = true;
        } else {
            k = k + 1;
        }
    }
    let r = build_selection(l0, l1, k);
    proof {
        let ghost kw: int = k as int;
        assert({
            &&& 0 <= kw <= lookup.level_0@.len()
            &&& r@ == cold_selection(lookup.level_0@, lookup.level_1@, kw)
            &&& forall|j: int|
                0 <= j < kw ==> !cold_crossed(
                    lookup.level_0@,
                    lookup.level_1@,
                    j,
                    max_size,
                    max_count,
                )
            &&& (kw < lookup.level_0@.len() ==> cold_crossed(
                lookup.level_0@,
                lookup.level_1@,
                kw,
                max_size,
                max_count,
            ))
        });
    }
    r
}

/// A filtered set of input files, all to be rewritten at `target_level` by one
/// compaction operation.
pub struct FilteredFiles {
    /// The selected input files: the chosen L0 files in lookup order, then the
    /// overlapping L1 files in lookup order.
    pub files: Vec<FileMeta>,
    /// The level the outputs will be written at.
    pub target_level: CompactionLevel,
}

/// Select the input files for one hot compaction operation.
///
/// L0 files are taken greedily in lookup order; taking an L0 file drags in
/// every L1 file that overlaps one of the L0 files taken so far. The selection
/// grows while its estimated in-memory footprint stays within `budget`; the
/// first L0 file whose unit would exceed the budget stops it. An empty result
/// means not even the first L0 file fits (or there was nothing to do) and the
/// partition is skipped.
pub fn filter_hot_parquet_files(
    lookup: &ParquetFilesForCompaction,
    budget: u64,
    cols: &Vec<ColumnTypeCount>,
) -> (r: FilteredFiles)
    ensures
        r.target_level == CompactionLevel::FileNonOverlapped,
        exists|k: int|
            {
                &&& 0 <= k <= lookup.level_0@.len()
                &&& r.files@ == hot_selection(lookup.level_0@, lookup.level_1@, k)
                &&& (k > 0 ==> hot_cost(lookup.level_0@, lookup.level_1@, k, cols@) <= budget)
                &&& (k < lookup.level_0@.len() ==> hot_cost(
                    lookup.level_0@,
                    lookup.level_1@,
                    k + 1,
                    cols@,
                ) > budget)
            },
{
    let l0 = &lookup.level_0;
    let l1 = &lookup.level_1;
    let mut k: usize = 0;
    let mut stop = false;
    while k < l0.len() && !stop
        invariant
            0 <= k <= l0@.len(),
            k > 0 ==> hot_cost(l0@, l1@, k as int, cols@) <= budget,
            stop ==> k < l0@.len() && hot_cost(l0@, l1@, k + 1, cols@) > budget,
        decreases l0@.len() - k + if stop {
            0int
        } else {
            1int
        },
    {
        // Cost of the selection grown by the next L0 file.
        let kp1: usize = k + 1;
        let trial_l1 = collect_overlapping_l1(l1, l0, kp1);
        let mut cost: u64 = 0;
        let mut i: usize = 0;
        while i < kp1
            invariant
                0 <= i <= kp1 <= l0@.len(),
                cost == spec_estimate_files(l0@.take(i as int), cols@),
            decreases kp1 - i,
        {
            proof {
                assert(l0@.take(i + 1).drop_last() =~= l0@.take(i as int));
            }
            cost = sat_add_exec(cost, estimate_file_bytes(&l0[i], cols));
            i = i + 1;
        }
        proof {
            assert(l0@.take(k + 1) + trial_l1@.take(0) =~= l0@.take(k + 1));
        }
        let mut j: usize = 0;
        while j < trial_l1.len()
            invariant
                0 <= j <= trial_l1@.len(),
                k + 1 <= l0@.len(),
                trial_l1@ == overlapping_l1(l1@, l0@.take(k + 1)),
                cost == spec_estimate_files(
                    l0@.take(k + 1) + trial_l1@.take(j as int),
                    cols@,
                ),
            decreases trial_l1@.len() - j,
        {
            proof {
                assert((l0@.take(k + 1) + trial_l1@.take(j + 1)).drop_last() =~= l0@.take(k + 1)
                    + trial_l1@.take(j as int));
                assert((l0@.take(k + 1) + trial_l1@.take(j + 1)).last() == trial_l1@[j as int]);
            }
            cost = sat_add_exec(cost, estimate_file_bytes(&trial_l1[j], cols));
            j = j + 1;
        }
        proof {
            assert(l0@.take(k + 1) + trial_l1@.take(trial_l1@.len() as int) =~= l0@.take(k + 1)
                + trial_l1@);
        }
        if cost > budget {
            stop = true;
        } else {
            k = k + 1;
        }
    }
    let chosen_l1 = collect_overlapping_l1(l1, l0, k);
    let mut files = Vec::new();
    let mut i: usize = 0;
    while i < k
        invariant
            0 <= i <= k <= l0@.len(),
            files@ == l0@.take(i as int),
        decreases k - i,
    {
        proof {
            assert(l0@.take(i + 1) =~= l0@.take(i as int).push(l0@[i as int]));
        }
        files.push(l0[i]);
        i = i + 1;
    }
    let mut j: usize = 0;
    while j < chosen_l1.len()
        invariant
            0 <= j <= chosen_l1@.len(),
            files@ == l0@.take(k as int) + chosen_l1@.take(j as int),
        decreases chosen_l1@.len() - j,
    {
        proof {
            assert(l0@.take(k as int) + chosen_l1@.take(j + 1) =~= (l0@.take(k as int)
                + chosen_l1@.take(j as int)).push(chosen_l1@[j as int]));
        }
        files.push(chosen_l1[j]);
        j = j + 1;
    }
    proof {
        assert(chosen_l1@.take(chosen_l1@.len() as int) =~= chosen_l1@);
    }
    let r = FilteredFiles { files, target_level: CompactionLevel::FileNonOverlapped };
    proof {
        let ghost kw: int = k as int;
        assert({
            &&& 0 <= kw <= lookup.level_0@.len()
            &&& r.files@ == hot_selection(lookup.level_0@, lookup.level_1@, kw)
            &&& (kw > 0 ==> hot_cost(lookup.level_0@, lookup.level_1@, kw, cols@) <= budget)
            &&& (kw < lookup.level_0@.len() ==> hot_cost(
                lookup.level_0@,
                lookup.level_1@,
                kw + 1,
                cols@,
            ) > budget)
        });
    }
    r
}

} // verus!
