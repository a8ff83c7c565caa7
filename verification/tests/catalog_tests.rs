//! Catalog transactions: creation, deletion flagging, and idempotent level
//! promotion.

use compactor_core::catalog::{CatalogState, FileParams};
use compactor_core::files::CompactionLevel;

fn params(min: i64, max: i64) -> FileParams {
    FileParams {
        partition_id: 1,
        object_store_id: 0,
        min_time: min,
        max_time: max,
        max_sequence_number: 1,
        row_count: 1,
        file_size_bytes: 10,
        compaction_level: CompactionLevel::Initial,
        created_at: 0,
    }
}

#[test]
fn create_assigns_sequential_ids() {
    let catalog = CatalogState::new();
    let (catalog, f1) = catalog.create(params(0, 1));
    let (catalog, f2) = catalog.create(params(2, 3));
    assert_eq!(f1.id, 1);
    assert_eq!(f2.id, 2);
    assert_eq!(catalog.files.len(), 2);
    assert!(!f1.to_delete);
}

#[test]
fn flag_for_delete_keeps_row_visible() {
    let catalog = CatalogState::new();
    let (catalog, f1) = catalog.create(params(0, 1));
    let (catalog, _f2) = catalog.create(params(2, 3));
    let catalog = catalog.flag_for_delete(f1.id);
    assert_eq!(catalog.files.len(), 2);
    assert!(catalog.files[0].to_delete);
    assert!(!catalog.files[1].to_delete);
}

#[test]
fn promotion_is_idempotent() {
    // Two consecutive level updates with the same ids and level converge to a
    // single level change.
    let catalog = CatalogState::new();
    let (catalog, f1) = catalog.create(params(0, 1));
    let (catalog, _f2) = catalog.create(params(2, 3));
    let ids = vec![f1.id];

    let once = catalog.update_compaction_level(&ids, CompactionLevel::FileNonOverlapped);
    let first = once.files.clone();
    let twice = once.update_compaction_level(&ids, CompactionLevel::FileNonOverlapped);

    assert_eq!(twice.files, first);
    assert_eq!(twice.files[0].compaction_level, CompactionLevel::FileNonOverlapped);
    assert_eq!(twice.files[1].compaction_level, CompactionLevel::Initial);
}

#[test]
fn flag_many_flags_exactly_the_listed_ids() {
    let catalog = CatalogState::new();
    let (catalog, f1) = catalog.create(params(0, 1));
    let (catalog, _f2) = catalog.create(params(2, 3));
    let (catalog, f3) = catalog.create(params(4, 5));
    let catalog = catalog.flag_many(&vec![f1.id, f3.id]);
    let flags: Vec<bool> = catalog.files.iter().map(|f| f.to_delete).collect();
    assert_eq!(flags, vec![true, false, true]);
}
