//! Cache behaviour: loader coalescing, LRU eviction under the pool ceiling,
//! and the cached object store's read answers.

use compactor_core::cache::{EntryState, GetOutcome, LruCache};
use compactor_core::object_store_cache::{get_range, head_size, CachedObjectStore, RangeError};

fn bytes(s: &str) -> Vec<u8> {
    s.as_bytes().to_vec()
}

#[test]
fn cache_coalesces_concurrent_gets() {
    // 100 callers ask for a cold key: the loader runs exactly once; everyone
    // else waits, and all see the same bytes once the load completes.
    let mut cache = LruCache::new();
    let key = "k".to_string();
    let mut starts = 0;
    let mut waits = 0;
    for _ in 0..100 {
        match cache.get(&key) {
            GetOutcome::StartLoad => starts += 1,
            GetOutcome::Waiting => waits += 1,
            GetOutcome::Hit(_) => panic!("no value was loaded yet"),
        }
    }
    assert_eq!(starts, 1);
    assert_eq!(waits, 99);

    let waiters = cache.complete_load(&key, Some(bytes("payload")), 7, 1_000_000);
    assert_eq!(waiters, 99);

    for _ in 0..100 {
        match cache.get(&key) {
            GetOutcome::Hit(Some(v)) => assert_eq!(v, bytes("payload")),
            _ => panic!("the loaded value must be served"),
        }
    }
}

#[test]
fn cache_lru_spill() {
    // Pool ceiling 1 MiB; ten entries of 200 KiB each. After all inserts the
    // resident bytes stay within the ceiling and the five oldest entries miss.
    let ceiling: u64 = 1024 * 1024;
    let entry_size: u64 = 200 * 1024;
    let mut cache = LruCache::new();
    for i in 0..10 {
        let key = format!("entry/{i}");
        match cache.get(&key) {
            GetOutcome::StartLoad => {}
            _ => panic!("cold key must start its load"),
        }
        cache.complete_load(&key, Some(bytes("x")), entry_size, ceiling);
    }
    let resident: u64 = cache
        .entries
        .iter()
        .map(|e| match &e.state {
            EntryState::Present { size, .. } => *size,
            EntryState::Loading { .. } => 0,
        })
        .sum();
    assert!(resident <= ceiling);
    for i in 0..5 {
        let key = format!("entry/{i}");
        assert!(cache.peek(&key).is_none(), "entry {i} should have been evicted");
    }
    for i in 5..10 {
        let key = format!("entry/{i}");
        assert!(cache.peek(&key).is_some(), "entry {i} should be resident");
    }
}

#[test]
fn cache_not_found_is_cached() {
    let mut cache = LruCache::new();
    let key = "missing".to_string();
    assert!(matches!(cache.get(&key), GetOutcome::StartLoad));
    cache.complete_load(&key, None, 4, 1_000_000);
    match cache.get(&key) {
        GetOutcome::Hit(None) => {}
        _ => panic!("a not-found answer is cached like any other"),
    }
}

#[test]
fn cache_remove_forgets_key() {
    let mut cache = LruCache::new();
    let key = "k".to_string();
    assert!(matches!(cache.get(&key), GetOutcome::StartLoad));
    cache.complete_load(&key, Some(bytes("v")), 1, 100);
    assert!(cache.peek(&key).is_some());
    cache.remove(&key);
    assert!(cache.peek(&key).is_none());
    assert!(matches!(cache.get(&key), GetOutcome::StartLoad));
}

#[test]
fn object_store_test() {
    // Reads are answered through the cache; hits do not run the loader again,
    // "not found" is cached forever, and later changes to the backing store
    // do not invalidate what was cached.
    let mut backing = std::collections::BTreeMap::new();
    backing.insert("foo".to_string(), bytes("data_foo"));
    backing.insert("bar/1".to_string(), bytes("data_bar/1"));
    backing.insert("bar/2".to_string(), bytes("data_bar/2"));

    let mut store = CachedObjectStore::new(1_000_000);
    let mut loads = 0;

    let mut read = |store: &mut CachedObjectStore,
                    backing: &std::collections::BTreeMap<String, Vec<u8>>,
                    loads: &mut u32,
                    path: &str|
     -> Option<Vec<u8>> {
        let key = path.to_string();
        match store.get_data(&key) {
            GetOutcome::Hit(v) => v,
            GetOutcome::Waiting => unreachable!("single caller"),
            GetOutcome::StartLoad => {
                *loads += 1;
                let data = backing.get(path).cloned();
                let size = data.as_ref().map(|d| d.len() as u64).unwrap_or(0) + path.len() as u64;
                store.load_complete(&key, data.clone(), size);
                data
            }
        }
    };

    assert_eq!(read(&mut store, &backing, &mut loads, "foo"), Some(bytes("data_foo")));
    assert_eq!(loads, 1);
    assert_eq!(read(&mut store, &backing, &mut loads, "foo"), Some(bytes("data_foo")));
    assert_eq!(loads, 1, "a hit must not run the loader again");

    assert_eq!(read(&mut store, &backing, &mut loads, "baz"), None);
    assert_eq!(loads, 2);
    assert_eq!(read(&mut store, &backing, &mut loads, "baz"), None);
    assert_eq!(loads, 2, "a cached not-found must not run the loader again");

    // Changes to the backing store do not invalidate the cache.
    backing.remove("foo");
    backing.insert("baz".to_string(), bytes("data_baz"));
    assert_eq!(read(&mut store, &backing, &mut loads, "baz"), None);
    assert_eq!(read(&mut store, &backing, &mut loads, "foo"), Some(bytes("data_foo")));
    assert_eq!(loads, 2);
}

#[test]
fn ranged_reads_and_head() {
    let data = bytes("data_foo");
    assert_eq!(get_range(&data, 0, 4), Ok(bytes("data")));
    assert_eq!(get_range(&data, 5, 8), Ok(bytes("foo")));
    assert_eq!(get_range(&data, 0, 9), Err(RangeError::OutOfRange));
    assert_eq!(get_range(&data, 6, 5), Err(RangeError::InvalidRange));
    assert_eq!(head_size(&data), 8);
}
