//! End-to-end compaction scenarios over the catalog and row models.

use compactor_core::catalog::{CatalogState, FileParams};
use compactor_core::files::{CompactionLevel, FileMeta};
use compactor_core::pipeline::{
    compact_cold_partition, compact_hot_partition, compact_remaining_level_0_files,
};
use compactor_core::planner::{parse_query_type, QueryType};
use compactor_core::rows::{Field, FileRows, Row, Tag};

fn lp_rows(lp: &str) -> Vec<Row> {
    let mut rows = Vec::new();
    for line in lp.lines() {
        let mut parts = line.trim().split(' ').filter(|s| !s.is_empty());
        let head = parts.next().unwrap();
        let fields_part = parts.next().unwrap();
        let ts: i64 = parts.next().unwrap().parse().unwrap();
        let mut head_it = head.split(',');
        let _measurement = head_it.next().unwrap();
        let mut tags = Vec::new();
        for kv in head_it {
            let mut it = kv.splitn(2, '=');
            tags.push(Tag {
                name: it.next().unwrap().to_string(),
                value: it.next().unwrap().to_string(),
            });
        }
        let mut fields = Vec::new();
        for kv in fields_part.split(',') {
            let mut it = kv.splitn(2, '=');
            let name = it.next().unwrap().to_string();
            let raw = it.next().unwrap();
            let value: i64 = raw.trim_end_matches('i').parse().unwrap();
            fields.push(Field { name, value });
        }
        rows.push(Row { tags, time: ts, fields });
    }
    rows
}

fn row_tuple(r: &Row) -> (Vec<(String, String)>, i64, Vec<(String, i64)>) {
    (
        r.tags.iter().map(|t| (t.name.clone(), t.value.clone())).collect(),
        r.time,
        r.fields.iter().map(|f| (f.name.clone(), f.value)).collect(),
    )
}

fn sorted_tuples(rows: &[Row]) -> Vec<(Vec<(String, String)>, i64, Vec<(String, i64)>)> {
    let mut v: Vec<_> = rows.iter().map(row_tuple).collect();
    v.sort();
    v
}

fn expect_rows(spec: &[(&[(&str, &str)], i64, i64)]) -> Vec<Row> {
    spec.iter()
        .map(|(tags, field_int, time)| Row {
            tags: tags
                .iter()
                .map(|(n, v)| Tag { name: n.to_string(), value: v.to_string() })
                .collect(),
            time: *time,
            fields: vec![Field { name: "field_int".to_string(), value: *field_int }],
        })
        .collect()
}

struct Fixture {
    catalog: CatalogState,
    files: Vec<FileRows>,
}

fn add_file(
    fx: Fixture,
    lp: &str,
    max_seq: i64,
    min_time: i64,
    max_time: i64,
    size: u64,
    created_at: i64,
    level: CompactionLevel,
) -> Fixture {
    let rows = lp_rows(lp);
    let params = FileParams {
        partition_id: 1,
        object_store_id: 0,
        min_time,
        max_time,
        max_sequence_number: max_seq,
        row_count: rows.len() as u64,
        file_size_bytes: size,
        compaction_level: level,
        created_at,
    };
    let (catalog, meta) = fx.catalog.create(params);
    let mut files = fx.files;
    files.push(FileRows { meta, rows });
    Fixture { catalog, files }
}

const LP1: &str = "table,tag1=WA field_int=1000i 10\ntable,tag1=VT field_int=10i 20";
const LP2: &str =
    "table,tag1=WA field_int=1000i 8000\ntable,tag1=VT field_int=10i 10000\ntable,tag1=UT field_int=70i 20000";
const LP3: &str =
    "table,tag1=WA field_int=1500i 8000\ntable,tag1=VT field_int=10i 6000\ntable,tag1=UT field_int=270i 25000";
const LP4: &str =
    "table,tag2=WA,tag3=10 field_int=1600i 28000\ntable,tag2=VT,tag3=20 field_int=20i 26000";
const LP5: &str =
    "table,tag2=PA,tag3=15 field_int=1601i 9\ntable,tag2=OH,tag3=21 field_int=21i 25";
const LP6: &str =
    "table,tag2=PA,tag3=15 field_int=81601i 90000\ntable,tag2=OH,tag3=21 field_int=421i 91000";

const MAX_DESIRED: u64 = 10_000;
const PCT_MAX: u64 = 30;
const SPLIT_PCT: u64 = 80;
const COLD_SIZE_THRESHOLD: u64 = 600 * 1024 * 1024;
const COLD_COUNT_THRESHOLD: u64 = 100;
const COLD_MAX_DESIRED: u64 = 104_857_600;

fn six_file_fixture(created_at: i64) -> Fixture {
    let fx = Fixture { catalog: CatalogState::new(), files: Vec::new() };
    let fx = add_file(fx, LP1, 3, 10, 20, MAX_DESIRED + 10, created_at, CompactionLevel::Initial);
    let fx = add_file(fx, LP2, 5, 8_000, 20_000, 100, created_at, CompactionLevel::Initial);
    let fx = add_file(fx, LP3, 10, 6_000, 25_000, 100, created_at, CompactionLevel::Initial);
    let fx = add_file(fx, LP4, 18, 26_000, 28_000, 100, created_at, CompactionLevel::Initial);
    let fx = add_file(
        fx,
        LP5,
        1,
        9,
        25,
        100,
        created_at,
        CompactionLevel::FileNonOverlapped,
    );
    add_file(
        fx,
        LP6,
        20,
        90_000,
        91_000,
        100,
        created_at,
        CompactionLevel::FileNonOverlapped,
    )
}

fn column_counts() -> Vec<compactor_core::filter::ColumnTypeCount> {
    vec![
        compactor_core::filter::ColumnTypeCount {
            col_type: compactor_core::filter::ColumnType::Tag,
            count: 3,
        },
        compactor_core::filter::ColumnTypeCount {
            col_type: compactor_core::filter::ColumnType::I64,
            count: 1,
        },
        compactor_core::filter::ColumnTypeCount {
            col_type: compactor_core::filter::ColumnType::Time,
            count: 1,
        },
    ]
}

fn live_files(catalog: &CatalogState) -> Vec<(u64, CompactionLevel)> {
    catalog
        .files
        .iter()
        .filter(|f| !f.to_delete)
        .map(|f| (f.id, f.compaction_level))
        .collect()
}

const BAND1: &[(&[(&str, &str)], i64, i64)] = &[
    (&[("tag1", "VT")], 10, 20),
    (&[("tag1", "VT")], 10, 6000),
    (&[("tag1", "VT")], 10, 10000),
    (&[("tag1", "WA")], 1000, 10),
    (&[("tag1", "WA")], 1500, 8000),
    (&[("tag2", "PA"), ("tag3", "15")], 1601, 9),
    (&[("tag2", "OH"), ("tag3", "21")], 21, 25),
    (&[("tag1", "UT")], 70, 20000),
];

const BAND2: &[(&[(&str, &str)], i64, i64)] = &[
    (&[("tag2", "WA"), ("tag3", "10")], 1600, 28000),
    (&[("tag2", "VT"), ("tag3", "20")], 20, 26000),
    (&[("tag1", "UT")], 270, 25000),
];

#[test]
fn test_compact_hot_partition_many_files() {
    let fx = six_file_fixture(20);
    assert_eq!(
        fx.files.iter().filter(|f| f.meta.compaction_level == CompactionLevel::Initial).count(),
        4
    );

    let cols = column_counts();
    let (catalog, outputs) = compact_hot_partition(
        &fx.files,
        1,
        100_000_000,
        &cols,
        MAX_DESIRED,
        PCT_MAX,
        SPLIT_PCT,
        20,
        fx.catalog,
    );

    assert_eq!(
        live_files(&catalog),
        vec![
            (6, CompactionLevel::FileNonOverlapped),
            (7, CompactionLevel::FileNonOverlapped),
            (8, CompactionLevel::FileNonOverlapped),
        ]
    );

    assert_eq!(outputs.len(), 2);
    // Earlier compacted file: everything at or before the split time.
    assert_eq!(sorted_tuples(&outputs[0].rows), sorted_tuples(&expect_rows(BAND1)));
    // Later compacted file.
    assert_eq!(sorted_tuples(&outputs[1].rows), sorted_tuples(&expect_rows(BAND2)));
    // The duplicate at tag1=WA, time 8000 resolved to the higher sequence.
    assert!(outputs[0]
        .rows
        .iter()
        .any(|r| r.time == 8000 && r.fields[0].value == 1500));
    assert!(!outputs[0]
        .rows
        .iter()
        .any(|r| r.time == 8000 && r.fields[0].value == 1000));
}

#[test]
fn test_compact_remaining_level_0_files_many_files() {
    let aged = -136_800_000_000_000i64;
    let fx = six_file_fixture(aged);

    let (catalog, outputs, _live) = compact_remaining_level_0_files(
        &fx.files,
        1,
        COLD_SIZE_THRESHOLD,
        COLD_COUNT_THRESHOLD,
        MAX_DESIRED,
        PCT_MAX,
        SPLIT_PCT,
        aged,
        fx.catalog,
    );

    assert_eq!(
        live_files(&catalog),
        vec![
            (6, CompactionLevel::FileNonOverlapped),
            (7, CompactionLevel::FileNonOverlapped),
            (8, CompactionLevel::FileNonOverlapped),
        ]
    );
    assert_eq!(outputs.len(), 2);
    assert_eq!(sorted_tuples(&outputs[0].rows), sorted_tuples(&expect_rows(BAND1)));
    assert_eq!(sorted_tuples(&outputs[1].rows), sorted_tuples(&expect_rows(BAND2)));
}

#[test]
fn test_compact_remaining_level_0_files_one_level_0_without_overlap() {
    let aged = -136_800_000_000_000i64;
    let fx = Fixture { catalog: CatalogState::new(), files: Vec::new() };
    let fx = add_file(fx, LP1, 3, 10, 20, MAX_DESIRED + 10, aged, CompactionLevel::Initial);
    let fx = add_file(
        fx,
        LP6,
        20,
        90_000,
        91_000,
        100,
        aged,
        CompactionLevel::FileNonOverlapped,
    );

    let before = fx.catalog.files.len();
    let (catalog, outputs, _live) = compact_remaining_level_0_files(
        &fx.files,
        1,
        COLD_SIZE_THRESHOLD,
        COLD_COUNT_THRESHOLD,
        MAX_DESIRED,
        PCT_MAX,
        SPLIT_PCT,
        aged,
        fx.catalog,
    );

    // The lone L0 was promoted: no rewrite, no new catalog rows, no new blobs.
    assert_eq!(outputs.len(), 0);
    assert_eq!(catalog.files.len(), before);
    assert_eq!(
        live_files(&catalog),
        vec![
            (1, CompactionLevel::FileNonOverlapped),
            (2, CompactionLevel::FileNonOverlapped),
        ]
    );
}

#[test]
fn full_cold_compaction_many_files() {
    let aged = -136_800_000_000_000i64;
    let fx = six_file_fixture(aged);

    let (catalog, outputs) = compact_cold_partition(
        &fx.files,
        1,
        COLD_SIZE_THRESHOLD,
        COLD_COUNT_THRESHOLD,
        MAX_DESIRED,
        PCT_MAX,
        SPLIT_PCT,
        COLD_MAX_DESIRED,
        aged,
        fx.catalog,
    );

    assert_eq!(live_files(&catalog), vec![(9, CompactionLevel::Final)]);
    assert_eq!(outputs.len(), 1);
    assert_eq!(outputs[0].rows.len(), 13);

    let mut all: Vec<(&[(&str, &str)], i64, i64)> = Vec::new();
    all.extend_from_slice(BAND1);
    all.extend_from_slice(BAND2);
    all.push((&[("tag2", "PA"), ("tag3", "15")], 81601, 90000));
    all.push((&[("tag2", "OH"), ("tag3", "21")], 421, 91000));
    assert_eq!(sorted_tuples(&outputs[0].rows), sorted_tuples(&expect_rows(&all)));
}

#[test]
fn cancellation_leaves_catalog_unchanged() {
    // Begin a compaction and drop it before the catalog swap: the pure
    // pipeline stages touch nothing, so the partition's visible state is
    // unchanged, and a second invocation produces the expected outputs.
    let fx = six_file_fixture(20);
    let before: Vec<FileMeta> = fx.catalog.files.clone();

    // The work up to the swap runs on copies of the rows.
    let cloned: Vec<FileRows> = fx
        .files
        .iter()
        .map(|f| compactor_core::pipeline::clone_file_rows(f))
        .collect();
    let merged = compactor_core::rows::merge_dedup(cloned);
    assert_eq!(merged.len(), 13);
    drop(merged);

    assert_eq!(fx.catalog.files, before);

    // Re-running the full cycle succeeds and produces the expected state.
    let cols = column_counts();
    let (catalog, outputs) = compact_hot_partition(
        &fx.files,
        1,
        100_000_000,
        &cols,
        MAX_DESIRED,
        PCT_MAX,
        SPLIT_PCT,
        20,
        fx.catalog,
    );
    assert_eq!(
        live_files(&catalog),
        vec![
            (6, CompactionLevel::FileNonOverlapped),
            (7, CompactionLevel::FileNonOverlapped),
            (8, CompactionLevel::FileNonOverlapped),
        ]
    );
    assert_eq!(outputs.len(), 2);
    assert_eq!(sorted_tuples(&outputs[0].rows), sorted_tuples(&expect_rows(BAND1)));
}

#[test]
fn outputs_carry_v4_object_store_ids() {
    let fx = six_file_fixture(20);
    let cols = column_counts();
    let (_catalog, outputs) = compact_hot_partition(
        &fx.files,
        1,
        100_000_000,
        &cols,
        MAX_DESIRED,
        PCT_MAX,
        SPLIT_PCT,
        20,
        fx.catalog,
    );
    for o in &outputs {
        let id = o.meta.object_store_id;
        assert_ne!(id, 0);
        assert_eq!(id & 0xF0000000000000000000, 0x40000000000000000000);
        assert_eq!(id & 0xC000000000000000, 0x8000000000000000);
    }
    assert_ne!(outputs[0].meta.object_store_id, outputs[1].meta.object_store_id);
}

#[test]
fn dedup_preserves_distinct_rows() {
    // With no duplicate identities, dedup keeps every row: the multiset of
    // (tags, time, fields) values of the output equals that of the input.
    let fx = Fixture { catalog: CatalogState::new(), files: Vec::new() };
    let fx = add_file(fx, LP1, 3, 10, 20, 100, 0, CompactionLevel::Initial);
    let fx = add_file(fx, LP4, 18, 26_000, 28_000, 100, 0, CompactionLevel::Initial);
    let inputs: Vec<FileRows> = fx
        .files
        .iter()
        .map(|f| compactor_core::pipeline::clone_file_rows(f))
        .collect();
    let merged = compactor_core::rows::merge_dedup(inputs);
    let mut expected: Vec<Row> = lp_rows(LP1);
    expected.extend(lp_rows(LP4));
    assert_eq!(sorted_tuples(&merged), sorted_tuples(&expected));
}

#[test]
fn query_type_names() {
    assert_eq!(parse_query_type("sql").unwrap(), QueryType::Sql);
    assert_eq!(parse_query_type("SQL").unwrap(), QueryType::Sql);
    assert_eq!(parse_query_type("Ast").unwrap(), QueryType::Ast);
    let err = parse_query_type("json").unwrap_err();
    assert_eq!(err.text, "json");
}
