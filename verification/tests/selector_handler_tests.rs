//! Candidate ranking, the hot/cold cycle ratio, budget admission, sort-key
//! resolution, and the function loader.

use compactor_core::handler::{BudgetState, CompactorConfig, CycleKind, ScheduleState, next_cycle};
use compactor_core::loader::{FunctionLoader, Loader};
use compactor_core::planner::SqlQueryPlanner;
use compactor_core::selector::{
    cold_partitions_to_compact, hot_partitions_to_compact, PartitionStats,
};
use compactor_core::sortkey::{extend_sort_key, resolve_sort_key, SortKeyUpdate};

fn stats(
    partition_id: u64,
    l0: u64,
    l1: u64,
    recent: u64,
    newest_l0: i64,
    max_created: i64,
) -> PartitionStats {
    PartitionStats {
        partition_id,
        l0_count: l0,
        l1_count: l1,
        recent_l0_count: recent,
        newest_l0_created_at: newest_l0,
        max_created_at: max_created,
    }
}

#[test]
fn hot_candidates_ranked_by_recent_count_then_recency() {
    let all = vec![
        stats(1, 3, 0, 3, 50, 50),
        stats(2, 5, 0, 5, 10, 10),
        stats(3, 5, 0, 5, 90, 90),
        stats(4, 1, 0, 0, 5, 5),
    ];
    let picked = hot_partitions_to_compact(&all, 10, 1, &vec![]);
    let ids: Vec<u64> = picked.iter().map(|s| s.partition_id).collect();
    // Most recent L0 files first; ties towards the newest creation time;
    // partition 4 misses the eligibility threshold.
    assert_eq!(ids, vec![3, 2, 1]);

    // The per-shard cap truncates, and in-flight partitions are skipped.
    let picked = hot_partitions_to_compact(&all, 1, 1, &vec![3]);
    let ids: Vec<u64> = picked.iter().map(|s| s.partition_id).collect();
    assert_eq!(ids, vec![2]);
}

#[test]
fn cold_candidates_oldest_first() {
    let now: i64 = 1_000_000;
    let threshold: i64 = 100;
    let all = vec![
        stats(1, 2, 0, 0, 500, 500),
        stats(2, 2, 0, 0, 100, 100),
        stats(3, 0, 3, 0, i64::MIN, 700),
        stats(4, 2, 0, 0, now, now),
    ];
    let picked = cold_partitions_to_compact(&all, 10, now, threshold, &vec![]);
    let ids: Vec<u64> = picked.iter().map(|s| s.partition_id).collect();
    // Partition 4 is too fresh; partition 3 has L1 but no L0 and sorts first
    // by its sentinel age.
    assert_eq!(ids, vec![3, 2, 1]);
}

#[test]
fn hot_cold_cycle_ratio() {
    // hot_multiple = 4: four hot cycles for every cold one.
    let mut s = ScheduleState { hot_runs_since_cold: 0 };
    let mut kinds = Vec::new();
    for _ in 0..10 {
        let (k, s2) = next_cycle(s, 4);
        kinds.push(k);
        s = s2;
    }
    assert_eq!(
        kinds,
        vec![
            CycleKind::Hot,
            CycleKind::Hot,
            CycleKind::Hot,
            CycleKind::Hot,
            CycleKind::Cold,
            CycleKind::Hot,
            CycleKind::Hot,
            CycleKind::Hot,
            CycleKind::Hot,
            CycleKind::Cold,
        ]
    );
}

#[test]
fn budget_admission() {
    let b = BudgetState::new(1000);
    let (ok, b) = b.acquire(700);
    assert!(ok);
    assert_eq!(b.remaining, 300);
    let (ok, b) = b.acquire(500);
    assert!(!ok);
    assert_eq!(b.remaining, 300);
    let b = b.release(700, 1000);
    assert_eq!(b.remaining, 1000);
}

#[test]
fn config_holds_the_options() {
    let c = CompactorConfig::new(
        10_000,
        30,
        80,
        90_000,
        1,
        1,
        600 * 1024 * 1024,
        104_857_600,
        100,
        4,
        100_000_000,
    );
    assert_eq!(c.max_desired_file_size_bytes, 10_000);
    assert_eq!(c.percentage_max_file_size, 30);
    assert_eq!(c.split_percentage, 80);
    assert_eq!(c.hot_multiple, 4);
}

#[test]
fn sort_key_extension_appends_missing_tags() {
    let current = vec!["tag1".to_string(), "time".to_string()];
    let tags = vec!["tag1".to_string(), "tag2".to_string(), "tag3".to_string(), "tag2".to_string()];
    let extended = extend_sort_key(&current, &tags);
    assert_eq!(extended, vec!["tag1", "time", "tag2", "tag3"]);

    match resolve_sort_key(Some(&current), &tags) {
        SortKeyUpdate::Extend(key) => assert_eq!(key, vec!["tag1", "time", "tag2", "tag3"]),
        _ => panic!("the key must be extended"),
    }
    match resolve_sort_key(Some(&extended), &tags) {
        SortKeyUpdate::Unchanged => {}
        _ => panic!("a covering key stays as it is"),
    }
    match resolve_sort_key(None, &vec!["tag1".to_string()]) {
        SortKeyUpdate::Assign(key) => assert_eq!(key, vec!["tag1"]),
        _ => panic!("a partition without a key gets the data's key"),
    }
}

#[test]
fn function_loader_runs_the_function() {
    let loader = FunctionLoader::new(|k: u8, _extra: ()| format!("{k}"));
    assert_eq!(loader.load(42, ()), "42");
    let _planner = SqlQueryPlanner::new();
}

#[test]
fn sort_key_appends_alphabetically() {
    let current = vec!["time".to_string()];
    let tags = vec!["tag3".to_string(), "tag1".to_string(), "tag2".to_string()];
    let extended = extend_sort_key(&current, &tags);
    assert_eq!(extended, vec!["time", "tag1", "tag2", "tag3"]);
}
