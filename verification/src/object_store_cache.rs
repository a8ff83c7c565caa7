//! A read-through cache in front of an object store.
//!
//! Objects are written once and never modified, so a read may be cached
//! forever; "not found" is a cached answer like any other. Ranged reads and
//! metadata lookups are answered from the cached bytes.

use vstd::prelude::*;
use crate::cache::{GetOutcome, LruCache};

verus! {

/// A failed ranged read.
#[derive(Clone, Copy, Debug, PartialEq, Eq, Structural)]
pub enum RangeError {
    /// The range's end lies past the object's length.
    OutOfRange,
    /// The range's start lies past its end.
    InvalidRange,
}

/// The cached object store: the cache of object bytes keyed by path, and the
/// byte ceiling of the memory pool it participates in.
#[derive(Debug)]
pub struct CachedObjectStore {
    /// Cached object bytes, keyed by object path.
    pub cache: LruCache,
    /// Byte ceiling of the shared memory pool.
    pub pool_ceiling: u64,
}

impl CachedObjectStore {
    /// A new, empty cached store over a pool with the given ceiling.
    pub fn new(pool_ceiling: u64) -> (r: Self)
        ensures
            r.cache.wf(),
            r.cache.entries@.len() == 0,
            r.cache.tick == 0,
            r.pool_ceiling == pool_ceiling,
    {
        CachedObjectStore { cache: LruCache::new(), pool_ceiling }
    }

    /// Look a path up in the cache, claiming the load when the path is cold.
    /// A load starts if and only if the cache holds neither the bytes nor an
    /// in-flight load for the path.
    pub fn get_data(&mut self, path: &String) -> (r: GetOutcome)
        requires
            old(self).cache.wf(),
            old(self).cache.tick < u64::MAX,
        ensures
            final(self).cache.wf(),
            final(self).cache.tick == old(self).cache.tick + 1,
            final(self).pool_ceiling == old(self).pool_ceiling,
            (r is StartLoad <==> !crate::cache::has_key(old(self).cache.entries@, path@)),
            crate::cache::has_key(final(self).cache.entries@, path@),
            crate::cache::resident(final(self).cache.entries@) == crate::cache::resident(
                old(self).cache.entries@,
            ),
            (r matches GetOutcome::Hit(v) ==> exists|i: int|
                0 <= i < old(self).cache.entries@.len() && (#[trigger] old(
                    self,
                ).cache.entries@[i]).key@ == path@ && (old(self).cache.entries@[i].state matches
                crate::cache::EntryState::Present { value, .. }
                    && crate::cache::opt_bytes_view(value) == crate::cache::opt_bytes_view(v))),
            (r is Waiting ==> exists|i: int|
                0 <= i < old(self).cache.entries@.len() && (#[trigger] old(
                    self,
                ).cache.entries@[i]).key@ == path@ && old(self).cache.entries@[i].state
                    is Loading),
    {
        self.cache.get(path)
    }

    /// Record the bytes a load fetched (or that the object does not exist),
    /// charging the estimator's size and evicting back under the pool ceiling.
    /// Returns how many callers waited on the load.
    pub fn load_complete(&mut self, path: &String, data: Option<Vec<u8>>, size: u64) -> (waiters:
        u64)
        requires
            old(self).cache.wf(),
            old(self).cache.tick < u64::MAX,
            crate::cache::resident(old(self).cache.entries@) <= u64::MAX,
        ensures
            final(self).cache.wf(),
            final(self).cache.tick == old(self).cache.tick + 1,
            final(self).pool_ceiling == old(self).pool_ceiling,
            crate::cache::resident(final(self).cache.entries@) <= old(self).pool_ceiling,
    {
        let ceiling = self.pool_ceiling;
        self.cache.complete_load(path, data, size, ceiling)
    }
}

/// Answer a ranged read from an object's bytes: the slice `[start, end)`, or
/// the error the range deserves.
pub fn get_range(data: &Vec<u8>, start: usize, end: usize) -> (r: Result<Vec<u8>, RangeError>)
    ensures
        end > data@.len() ==> r == Result::<Vec<u8>, RangeError>::Err(RangeError::OutOfRange),
        end <= data@.len() && start > end ==> r == Result::<Vec<u8>, RangeError>::Err(
            RangeError::InvalidRange,
        ),
        start <= end <= data@.len() ==> (r matches Result::Ok(b) && b@ == data@.subrange(
            start as int,
            end as int,
        )),
{
    if end > data.len() {
        return Err(RangeError::OutOfRange);
    }
    if start > end {
        return Err(RangeError::InvalidRange);
    }
    let mut out: Vec<u8> = Vec::new();
    let mut i: usize = start;
    while i < end
        invariant
            start <= i <= end <= data@.len(),
            out@ == data@.subrange(start as int, i as int),
        decreases end - i,
    {
        proof {
            assert(data@.subrange(start as int, i + 1) =~= data@.subrange(start as int, i as int)
                .push(data@[i as int]));
        }
        out.push(data[i]);
        i = i + 1;
    }
    Ok(out)
}

/// Answer a metadata lookup from an object's bytes: its size.
pub fn head_size(data: &Vec<u8>) -> (r: usize)
    ensures
        r == data@.len(),
{
    data.len()
}

/// The cache handle the querier hands out.
#[derive(Debug)]
pub struct ObjectStoreCache {
    /// The cached store.
    pub object_store: CachedObjectStore,
}

impl ObjectStoreCache {
    /// A new, empty cache over a pool with the given ceiling.
    pub fn new(pool_ceiling: u64) -> (r: Self)
        ensures
            r.object_store.cache.wf(),
            r.object_store.cache.entries@.len() == 0,
            r.object_store.pool_ceiling == pool_ceiling,
    {
        ObjectStoreCache { object_store: CachedObjectStore::new(pool_ceiling) }
    }

    /// The cached object store.
    pub fn object_store(&self) -> (r: &CachedObjectStore)
        ensures
            r == &self.object_store,
    {
        &self.object_store
    }
}

} // verus!
