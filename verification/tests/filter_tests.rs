//! Lookup grouping, file filtering, size estimation, the split decision, and
//! cold grouping.

use compactor_core::combine::{group_files_by_size, needs_split, split_time};
use compactor_core::files::{files_for_compaction, CompactionLevel, FileMeta};
use compactor_core::filter::{
    estimate_file_bytes, filter_cold_parquet_files, filter_hot_parquet_files, total_file_size_exec,
    ColumnType, ColumnTypeCount,
};

fn file(id: u64, level: CompactionLevel, seq: i64, min: i64, max: i64, size: u64) -> FileMeta {
    FileMeta {
        id,
        partition_id: 1,
        object_store_id: 0,
        min_time: min,
        max_time: max,
        max_sequence_number: seq,
        row_count: 10,
        file_size_bytes: size,
        compaction_level: level,
        created_at: 0,
        to_delete: false,
    }
}

#[test]
fn lookup_groups_and_orders_by_level() {
    let files = vec![
        file(1, CompactionLevel::FileNonOverlapped, 7, 0, 5, 10),
        file(2, CompactionLevel::Initial, 9, 0, 5, 10),
        file(3, CompactionLevel::Initial, 4, 10, 15, 10),
        FileMeta { to_delete: true, ..file(4, CompactionLevel::Initial, 1, 0, 1, 10) },
        file(5, CompactionLevel::Final, 2, 0, 5, 10),
        file(6, CompactionLevel::Initial, 4, 2, 3, 10),
    ];
    let lookup = files_for_compaction(&files);
    // Deleted files are dropped; order is (max_sequence_number, min_time).
    let l0_ids: Vec<u64> = lookup.level_0.iter().map(|f| f.id).collect();
    assert_eq!(l0_ids, vec![6, 3, 2]);
    let l1_ids: Vec<u64> = lookup.level_1.iter().map(|f| f.id).collect();
    assert_eq!(l1_ids, vec![1]);
    let l2_ids: Vec<u64> = lookup.level_2.iter().map(|f| f.id).collect();
    assert_eq!(l2_ids, vec![5]);
}

fn cols() -> Vec<ColumnTypeCount> {
    vec![
        ColumnTypeCount { col_type: ColumnType::Tag, count: 3 },
        ColumnTypeCount { col_type: ColumnType::I64, count: 1 },
        ColumnTypeCount { col_type: ColumnType::Time, count: 1 },
    ]
}

#[test]
fn estimate_is_rows_times_width() {
    // 3 tags at 64 bytes, one i64 and the timestamp at 8 bytes each: 208
    // bytes per row; 10 rows.
    let f = file(1, CompactionLevel::Initial, 1, 0, 1, 10);
    assert_eq!(estimate_file_bytes(&f, &cols()), 2080);
}

#[test]
fn hot_filter_respects_budget() {
    let files = vec![
        file(1, CompactionLevel::Initial, 1, 0, 10, 10),
        file(2, CompactionLevel::Initial, 2, 20, 30, 10),
        file(3, CompactionLevel::Initial, 3, 40, 50, 10),
    ];
    let lookup = files_for_compaction(&files);
    // Each file is estimated at 2080 bytes; a budget of 5000 takes two.
    let filtered = filter_hot_parquet_files(&lookup, 5000, &cols());
    let ids: Vec<u64> = filtered.files.iter().map(|f| f.id).collect();
    assert_eq!(ids, vec![1, 2]);
    assert_eq!(filtered.target_level, CompactionLevel::FileNonOverlapped);

    // A tiny budget admits nothing; the partition is skipped.
    let filtered = filter_hot_parquet_files(&lookup, 100, &cols());
    assert!(filtered.files.is_empty());
}

#[test]
fn hot_filter_drags_in_overlapping_l1() {
    let files = vec![
        file(1, CompactionLevel::Initial, 5, 10, 20, 10),
        file(2, CompactionLevel::FileNonOverlapped, 1, 15, 25, 10),
        file(3, CompactionLevel::FileNonOverlapped, 2, 100, 200, 10),
    ];
    let lookup = files_for_compaction(&files);
    let filtered = filter_hot_parquet_files(&lookup, 1_000_000, &cols());
    let ids: Vec<u64> = filtered.files.iter().map(|f| f.id).collect();
    assert_eq!(ids, vec![1, 2]);
}

#[test]
fn cold_filter_takes_l0_units_until_thresholds() {
    let files = vec![
        file(1, CompactionLevel::Initial, 1, 0, 10, 600),
        file(2, CompactionLevel::Initial, 2, 20, 30, 600),
        file(3, CompactionLevel::Initial, 3, 40, 50, 600),
    ];
    let lookup = files_for_compaction(&files);
    // The size threshold is crossed after the second file; growth stops.
    let sel = filter_cold_parquet_files(&lookup, 1000, 100);
    let ids: Vec<u64> = sel.iter().map(|f| f.id).collect();
    assert_eq!(ids, vec![1, 2]);

    // The count threshold alone stops at one file.
    let sel = filter_cold_parquet_files(&lookup, u64::MAX, 1);
    let ids: Vec<u64> = sel.iter().map(|f| f.id).collect();
    assert_eq!(ids, vec![1]);
}

#[test]
fn split_decision_and_time() {
    // Split exactly when total size exceeds the percentage of the target.
    assert!(!needs_split(3000, 10_000, 30));
    assert!(needs_split(3001, 10_000, 30));
    // The first output covers the configured share of the time range.
    assert_eq!(split_time(9, 28_000, 80), 22_401);
    assert_eq!(split_time(0, 100, 50), 50);
    assert_eq!(split_time(5, 5, 80), 5);
}

#[test]
fn cold_grouping_closes_groups_at_target() {
    let files = vec![
        file(1, CompactionLevel::FileNonOverlapped, 1, 0, 1, 60),
        file(2, CompactionLevel::FileNonOverlapped, 2, 2, 3, 50),
        file(3, CompactionLevel::FileNonOverlapped, 3, 4, 5, 10),
        file(4, CompactionLevel::FileNonOverlapped, 4, 6, 7, 10),
    ];
    let groups = group_files_by_size(files, 100);
    let ids: Vec<Vec<u64>> = groups
        .iter()
        .map(|g| g.iter().map(|f| f.id).collect())
        .collect();
    // 60 + 50 reaches the target and closes the first group; the rest stays
    // open as the (smaller) last group.
    assert_eq!(ids, vec![vec![1, 2], vec![3, 4]]);
    let g0: Vec<FileMeta> = groups[0].clone();
    assert!(total_file_size_exec(&g0) >= 100);
}

#[test]
fn total_size_saturates() {
    let files = vec![
        file(1, CompactionLevel::Initial, 1, 0, 1, u64::MAX),
        file(2, CompactionLevel::Initial, 2, 2, 3, 10),
    ];
    assert_eq!(total_file_size_exec(&files), u64::MAX);
}

#[test]
fn cold_groups_are_time_disjoint() {
    // L1 files ordered and disjoint in time; groups of the cold grouping span
    // disjoint time ranges.
    let files = vec![
        file(1, CompactionLevel::FileNonOverlapped, 1, 0, 10, 60),
        file(2, CompactionLevel::FileNonOverlapped, 2, 20, 30, 50),
        file(3, CompactionLevel::FileNonOverlapped, 3, 40, 50, 60),
        file(4, CompactionLevel::FileNonOverlapped, 4, 60, 70, 50),
    ];
    let groups = group_files_by_size(files, 100);
    assert_eq!(groups.len(), 2);
    let hull = |g: &Vec<FileMeta>| {
        (
            g.iter().map(|f| f.min_time).min().unwrap(),
            g.iter().map(|f| f.max_time).max().unwrap(),
        )
    };
    let (_, max0) = hull(&groups[0]);
    let (min1, _) = hull(&groups[1]);
    assert!(max0 < min1);
}

#[test]
fn cold_group_sizes_near_target() {
    // With every file at most a fifth of the target, every group but the last
    // lands within twenty per cent of the target.
    let target: u64 = 1000;
    let sizes = [200u64, 180, 200, 150, 190, 200, 160, 120, 90];
    let files: Vec<FileMeta> = sizes
        .iter()
        .enumerate()
        .map(|(i, s)| {
            file(
                i as u64 + 1,
                CompactionLevel::FileNonOverlapped,
                i as i64,
                i as i64 * 10,
                i as i64 * 10 + 5,
                *s,
            )
        })
        .collect();
    let groups = group_files_by_size(files, target);
    for g in groups.iter().take(groups.len() - 1) {
        let total: u64 = g.iter().map(|f| f.file_size_bytes).sum();
        assert!(total >= target - target / 5);
        assert!(total <= target + target / 5);
    }
}
