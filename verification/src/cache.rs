//! A keyed value cache with loader coalescing and LRU eviction under a byte
//! budget.
//!
//! For any key at most one load is in flight at a time: a `get` on a cold key
//! starts the one load, and every further `get` on that key joins it as a
//! waiter. Completed loads are cached — a "not found" result is a value like
//! any other — until evicted. Entries are kept in least-recently-used order,
//! front first; when the resident bytes exceed the pool ceiling, entries are
//! evicted from the front until the cache is back under the ceiling. An
//! entry's size is frozen when its load completes.

use vstd::prelude::*;

verus! {

/// State of one cache entry.
#[derive(Debug)]
pub enum EntryState {
    /// A load is in flight; `waiters` callers joined it after it started.
    Loading {
        /// Number of callers waiting on the load besides the one that started
        /// it.
        waiters: u64,
    },
    /// The loaded value; `None` is a cached "not found". `size` is the
    /// estimator's charge, frozen when the load completed.
    Present {
        /// The cached value.
        value: Option<Vec<u8>>,
        /// Frozen size charge in bytes.
        size: u64,
    },
}

/// One cache entry.
#[derive(Debug)]
pub struct CacheEntry {
    /// The key.
    pub key: String,
    /// Loading or loaded.
    pub state: EntryState,
    /// Logical time of the last use; the entry list is kept ascending in it.
    pub last_used: u64,
}

/// What a `get` finds.
#[derive(Debug)]
pub enum GetOutcome {
    /// The value is cached; the caller has it.
    Hit(Option<Vec<u8>>),
    /// A load for the key is already in flight; the caller waits for it.
    Waiting,
    /// No value and no load: the caller must run the one load for this key.
    StartLoad,
}

/// The cache: entries in least-recently-used order (front first), and the
/// logical clock that orders uses.
#[derive(Debug)]
pub struct LruCache {
    /// Entries, least recently used first.
    pub entries: Vec<CacheEntry>,
    /// Next logical timestamp.
    pub tick: u64,
}

/// Is the entry a loaded value?
pub open spec fn is_present(e: CacheEntry) -> bool {
    e.state is Present
}

/// The frozen size of a loaded entry, zero while loading.
pub open spec fn entry_size(e: CacheEntry) -> u64 {
    match e.state {
        EntryState::Present { size, .. } => size,
        EntryState::Loading { .. } => 0,
    }
}

/// Resident bytes: the sum of the frozen sizes of the loaded entries.
pub open spec fn resident(entries: Seq<CacheEntry>) -> int
    decreases entries.len(),
{
    if entries.len() == 0 {
        0
    } else {
        entry_size(entries.first()) + resident(entries.drop_first())
    }
}

/// Does some entry carry this key?
pub open spec fn has_key(entries: Seq<CacheEntry>, k: Seq<char>) -> bool {
    exists|i: int| 0 <= i < entries.len() && (#[trigger] entries[i]).key@ == k
}

impl LruCache {
    /// Cache well-formedness: keys are unique, entries are in strictly
    /// ascending order of last use, and all uses are in the clock's past.
    pub open spec fn wf(self) -> bool {
        &&& forall|i: int, j: int|
            0 <= i < j < self.entries@.len() ==> (#[trigger] self.entries@[i]).key@ != (
            #[trigger] self.entries@[j]).key@
        &&& forall|i: int, j: int|
            0 <= i < j < self.entries@.len() ==> self.entries@[i].last_used
                < self.entries@[j].last_used
        &&& forall|i: int|
            0 <= i < self.entries@.len() ==> (#[trigger] self.entries@[i]).last_used < self.tick
    }

    /// A new, empty cache.
    pub fn new() -> (r: Self)
        ensures
            r.wf(),
            r.entries@.len() == 0,
            resident(r.entries@) == 0,
            r.tick == 0,
    {
        LruCache { entries: Vec::new(), tick: 0 }
    }
}

/// Copy a byte string.
fn clone_bytes(v: &Vec<u8>) -> (r: Vec<u8>)
    ensures
        r@ == v@,
{
    let mut r: Vec<u8> = Vec::new();
    let mut i: usize = 0;
    while i < v.len()
        invariant
            0 <= i <= v@.len(),
            r@ == v@.take(i as int),
        decreases v@.len() - i,
    {
        proof {
            assert(v@.take(i + 1) =~= v@.take(i as int).push(v@[i as int]));
        }
        r.push(v[i]);
        i = i + 1;
    }
    proof {
        assert(v@.take(v@.len() as int) =~= v@);
    }
    r
}

/// Copy an optional byte string; the copy has the same value.
pub fn clone_value(v: &Option<Vec<u8>>) -> (r: Option<Vec<u8>>)
    ensures
        match (v, &r) {
            (Some(a), Some(b)) => a@ == b@,
            (None, None) => true,
            _ => false,
        },
{
    match v {
        Some(b) => Some(clone_bytes(b)),
        None => None,
    }
}

impl LruCache {
    /// Find the position of a key.
    fn find(&self, key: &String) -> (r: Option<usize>)
        ensures
            match r {
                Some(i) => i < self.entries@.len() && self.entries@[i as int].key@ == key@,
                None => !has_key(self.entries@, key@),
            },
    {
        let mut i: usize = 0;
        while i < self.entries.len()
            invariant
                0 <= i <= self.entries@.len(),
                forall|j: int| 0 <= j < i ==> (#[trigger] self.entries@[j]).key@ != key@,
            decreases self.entries@.len() - i,
        {
            if self.entries[i].key.eq(key) {
                return Some(i);
            }
            i = i + 1;
        }
        None
    }
}

/// Removing an entry takes exactly its size out of the resident bytes.
proof fn lemma_resident_remove(entries: Seq<CacheEntry>, i: int)
    requires
        0 <= i < entries.len(),
    ensures
        resident(entries.remove(i)) == resident(entries) - entry_size(entries[i]),
    decreases entries.len(),
{
    if i == 0 {
        assert(entries.remove(0) =~= entries.drop_first());
    } else {
        lemma_resident_remove(entries.drop_first(), i - 1);
        assert(entries.remove(i).drop_first() =~= entries.drop_first().remove(i - 1));
        assert(entries.remove(i).first() == entries.first());
    }
}

/// Appending an entry adds exactly its size to the resident bytes.
proof fn lemma_resident_push(entries: Seq<CacheEntry>, e: CacheEntry)
    ensures
        resident(entries.push(e)) == resident(entries) + entry_size(e),
    decreases entries.len(),
{
    if entries.len() == 0 {
        assert(entries.push(e).drop_first() =~= Seq::<CacheEntry>::empty());
        assert(entries.push(e).first() == e);
        assert(resident(entries.push(e)) == entry_size(e) + resident(
            entries.push(e).drop_first(),
        ));
    } else {
        lemma_resident_push(entries.drop_first(), e);
        assert(entries.push(e).drop_first() =~= entries.drop_first().push(e));
        assert(entries.push(e).first() == entries.first());
    }
}

/// The entries left after evicting, from the least recently used end, loaded
/// entries until `needed` bytes are freed.
pub open spec fn evict_front(entries: Seq<CacheEntry>, needed: int) -> Seq<CacheEntry>
    decreases entries.len(),
{
    if entries.len() == 0 {
        Seq::empty()
    } else {
        if is_present(entries.first()) && needed > 0 {
            evict_front(entries.drop_first(), needed - entry_size(entries.first()))
        } else {
            seq![entries.first()] + evict_front(entries.drop_first(), needed)
        }
    }
}

/// Evicting frees at least the needed bytes (or empties the cache of loaded
/// entries), and keeps a subsequence: order, uniqueness and key facts carry
/// over.
proof fn lemma_evict_front_resident(entries: Seq<CacheEntry>, needed: int)
    ensures
        resident(evict_front(entries, needed)) <= if needed <= 0 {
            resident(entries)
        } else if needed <= resident(entries) {
            resident(entries) - needed
        } else {
            0
        },
        resident(evict_front(entries, needed)) <= resident(entries),
        forall|k: int|
            0 <= k < evict_front(entries, needed).len() ==> exists|j: int|
                0 <= j < entries.len() && entries[j] == #[trigger] evict_front(entries, needed)[k],
    decreases entries.len(),
{
    lemma_resident_nonneg(entries);
    if entries.len() == 0 {
    } else {
        let first = entries.first();
        lemma_resident_nonneg(entries.drop_first());
        if is_present(first) && needed > 0 {
            lemma_evict_front_resident(entries.drop_first(), needed - entry_size(first));
            assert forall|k: int|
                0 <= k < evict_front(entries, needed).len() implies exists|j: int|
                0 <= j < entries.len() && entries[j] == #[trigger] evict_front(entries, needed)[k]
                by {
                let jj = choose|j: int|
                    0 <= j < entries.drop_first().len() && entries.drop_first()[j]
                        == evict_front(entries, needed)[k];
                assert(entries[jj + 1] == evict_front(entries, needed)[k]);
            }
        } else {
            lemma_evict_front_resident(entries.drop_first(), needed);
            let kept = seq![first] + evict_front(entries.drop_first(), needed);
            assert(kept.first() == first);
            assert(kept.drop_first() =~= evict_front(entries.drop_first(), needed));
            assert forall|k: int| 0 <= k < kept.len() implies exists|j: int|
                0 <= j < entries.len() && entries[j] == #[trigger] kept[k] by {
                if k == 0 {
                    assert(entries[0] == kept[0]);
                } else {
                    let jj = choose|j: int|
                        0 <= j < entries.drop_first().len() && entries.drop_first()[j] == kept[k];
                    assert(entries[jj + 1] == kept[k]);
                }
            }
        }
    }
}

/// Resident bytes are never negative.
proof fn lemma_resident_nonneg(entries: Seq<CacheEntry>)
    ensures
        resident(entries) >= 0,
    decreases entries.len(),
{
    if entries.len() > 0 {
        lemma_resident_nonneg(entries.drop_first());
    }
}

/// Value of an optional byte string.
pub open spec fn opt_bytes_view(v: Option<Vec<u8>>) -> Option<Seq<u8>> {
    match v {
        Some(b) => Some(b@),
        None => None,
    }
}

/// Saturating add on waiter counts.
pub open spec fn sat_inc(w: u64) -> u64 {
    if w == u64::MAX {
        w
    } else {
        (w + 1) as u64
    }
}

/// Prefix sums of resident bytes never exceed the whole.
proof fn lemma_resident_take(entries: Seq<CacheEntry>, i: int)
    requires
        0 <= i <= entries.len(),
    ensures
        resident(entries.take(i)) <= resident(entries),
        resident(entries.take(i)) >= 0,
    decreases entries.len() - i,
{
    lemma_resident_nonneg(entries.take(i));
    if i == entries.len() {
        assert(entries.take(i) =~= entries);
    } else {
        lemma_resident_take(entries, i + 1);
        lemma_resident_push(entries.take(i), entries[i]);
        assert(entries.take(i + 1) =~= entries.take(i).push(entries[i]));
    }
}

impl LruCache {
    /// Look a key up, join its in-flight load, or claim the one load to run.
    ///
    /// The caller must run the load exactly when `StartLoad` comes back: a
    /// load starts if and only if the cache holds neither a value nor an
    /// in-flight load for the key. On a hit the entry becomes the most
    /// recently used.
    #[verifier::rlimit(100)]
    #[verifier::spinoff_prover]
    pub fn get(&mut self, key: &String) -> (r: GetOutcome)
        requires
            old(self).wf(),
            old(self).tick < u64::MAX,
        ensures
            final(self).wf(),
            final(self).tick == old(self).tick + 1,
            (r is StartLoad <==> !has_key(old(self).entries@, key@)),
            has_key(final(self).entries@, key@),
            resident(final(self).entries@) == resident(old(self).entries@),
            final(self).entries@.len() == old(self).entries@.len() + (if r is StartLoad {
                1int
            } else {
                0int
            }),
            (r matches GetOutcome::Hit(v) ==> exists|i: int|
                0 <= i < old(self).entries@.len() && (#[trigger] old(self).entries@[i]).key@
                    == key@ && (old(self).entries@[i].state matches EntryState::Present {
                    value,
                    ..
                } && opt_bytes_view(value) == opt_bytes_view(v))),
            (r is Waiting ==> exists|i: int, j: int|
                {
                    &&& 0 <= i < old(self).entries@.len()
                    &&& 0 <= j < final(self).entries@.len()
                    &&& (#[trigger] old(self).entries@[i]).key@ == key@
                    &&& (#[trigger] final(self).entries@[j]).key@ == key@
                    &&& match (old(self).entries@[i].state, final(self).entries@[j].state) {
                        (
                            EntryState::Loading { waiters: w1 },
                            EntryState::Loading { waiters: w2 },
                        ) => w2 == sat_inc(w1),
                        _ => false,
                    }
                }),
            (r is StartLoad ==> exists|j: int|
                0 <= j < final(self).entries@.len() && (#[trigger] final(self).entries@[j]).key@
                    == key@ && final(self).entries@[j].state == (EntryState::Loading {
                    waiters: 0u64,
                })),
            forall|i: int|
                0 <= i < old(self).entries@.len() && (#[trigger] old(self).entries@[i]).key@
                    != key@ ==> exists|j: int|
                    0 <= j < final(self).entries@.len() && (#[trigger] final(self).entries@[j]).key@
                        == old(self).entries@[i].key@ && final(self).entries@[j].state == old(
                        self,
                    ).entries@[i].state,
    {
        let ghost orig = self.entries@;
        match self.find(key) {
            None => {
                let e = CacheEntry {
                    key: key.clone(),
                    state: EntryState::Loading { waiters: 0 },
                    last_used: self.tick,
                };
                proof {
                    lemma_resident_push(orig, e);
                }
                self.entries.push(e);
                self.tick = self.tick + 1;
                proof {
                    assert forall|i: int|
                        0 <= i < orig.len() && (#[trigger] orig[i]).key@
                            != key@ implies exists|j: int|
                        0 <= j < self.entries@.len() && (#[trigger] self.entries@[j]).key@
                            == orig[i].key@ && self.entries@[j].state == orig[i].state by {
                        assert(self.entries@[i].key@ == orig[i].key@);
                    }
                }
                GetOutcome::StartLoad
            },
            Some(i) => {
                proof {
                    lemma_resident_remove(orig, i as int);
                }
                let e = self.entries.remove(i);
                let (out, state2) = match e.state {
                    EntryState::Loading { waiters } => {
                        let w2: u64 = if waiters == u64::MAX {
                            waiters
                        } else {
                            waiters + 1
                        };
                        (GetOutcome::Waiting, EntryState::Loading { waiters: w2 })
                    },
                    EntryState::Present { value, size } => {
                        let out = clone_value(&value);
                        (GetOutcome::Hit(out), EntryState::Present { value, size })
                    },
                };
                let e2 = CacheEntry { key: e.key, state: state2, last_used: self.tick };
                proof {
                    lemma_resident_push(orig.remove(i as int), e2);
                }
                self.entries.push(e2);
                self.tick = self.tick + 1;
                proof {
                    assert(self.entries@[self.entries@.len() - 1].key@ == key@);
                    assert forall|p: int, q: int|
                        0 <= p < q < self.entries@.len() implies (
                    #[trigger] self.entries@[p]).key@ != (#[trigger] self.entries@[q]).key@ by {
                        if q < self.entries@.len() - 1 {
                            if p < i {
                                assert(self.entries@[p] == orig[p]);
                            } else {
                                assert(self.entries@[p] == orig[p + 1]);
                            }
                            if q < i {
                                assert(self.entries@[q] == orig[q]);
                            } else {
                                assert(self.entries@[q] == orig[q + 1]);
                            }
                        } else {
                            if p < i {
                                assert(self.entries@[p] == orig[p]);
                            } else {
                                assert(self.entries@[p] == orig[p + 1]);
                            }
                            assert(self.entries@[q].key@ == orig[i as int].key@);
                        }
                    }
                    assert forall|m: int|
                        0 <= m < orig.len() && (#[trigger] orig[m]).key@
                            != key@ implies exists|j: int|
                        0 <= j < self.entries@.len() && (#[trigger] self.entries@[j]).key@
                            == orig[m].key@ && self.entries@[j].state == orig[m].state by {
                        if m < i {
                            assert(self.entries@[m] == orig[m]);
                        } else {
                            assert(m > i);
                            assert(self.entries@[m - 1] == orig[m]);
                        }
                    }
                }
                out
            },
        }
    }

    /// Look a key up without starting a load.
    pub fn peek(&self, key: &String) -> (r: Option<Option<Vec<u8>>>)
        requires
            self.wf(),
        ensures
            (r is Some ==> exists|i: int|
                0 <= i < self.entries@.len() && (#[trigger] self.entries@[i]).key@ == key@ && (
                self.entries@[i].state matches EntryState::Present { value, .. }
                    && opt_bytes_view(value) == opt_bytes_view(r->0))),
            (r is None ==> forall|i: int|
                0 <= i < self.entries@.len() && (#[trigger] self.entries@[i]).key@ == key@
                    ==> !is_present(self.entries@[i])),
    {
        match self.find(key) {
            None => None,
            Some(i) => match &self.entries[i].state {
                EntryState::Present { value, .. } => Some(clone_value(value)),
                EntryState::Loading { .. } => {
                    proof {
                        assert forall|j: int|
                            0 <= j < self.entries@.len() && (#[trigger] self.entries@[j]).key@
                                == key@ implies !is_present(self.entries@[j]) by {
                            if j != i as int {
                                assert(self.entries@[j].key@ != self.entries@[i as int].key@);
                            }
                        }
                    }
                    None
                },
            },
        }
    }

    /// Evict a key, whatever its state; used when a caller learns its cached
    /// value is stale.
    pub fn remove(&mut self, key: &String)
        requires
            old(self).wf(),
        ensures
            final(self).wf(),
            !has_key(final(self).entries@, key@),
            forall|i: int|
                0 <= i < old(self).entries@.len() && (#[trigger] old(self).entries@[i]).key@
                    != key@ ==> exists|j: int|
                    0 <= j < final(self).entries@.len() && #[trigger] final(self).entries@[j] == old(
                        self,
                    ).entries@[i],
            final(self).tick == old(self).tick,
    {
        let ghost orig = self.entries@;
        match self.find(key) {
            None => {
            },
            Some(i) => {
                self.entries.remove(i);
                proof {
                    assert forall|m: int|
                        0 <= m < orig.len() && (#[trigger] orig[m]).key@
                            != key@ implies exists|j: int|
                        0 <= j < self.entries@.len() && #[trigger] self.entries@[j] == orig[m] by {
                        if m < i {
                            assert(self.entries@[m] == orig[m]);
                        } else {
                            assert(self.entries@[m - 1] == orig[m]);
                        }
                    }
                    assert forall|j: int|
                        0 <= j < self.entries@.len() implies (#[trigger] self.entries@[j]).key@
                        != key@ by {
                        if j < i {
                            assert(self.entries@[j] == orig[j]);
                        } else {
                            assert(self.entries@[j] == orig[j + 1]);
                        }
                    }
                }
            },
        }
    }
}

impl LruCache {
    /// Complete the one load for a key: freeze the value and its size charge,
    /// make the entry the most recently used, then evict entries — least
    /// recently used first — until the resident bytes are back under the pool
    /// ceiling. Returns how many callers waited on the load.
    pub fn complete_load(
        &mut self,
        key: &String,
        value: Option<Vec<u8>>,
        size: u64,
        ceiling: u64,
    ) -> (waiters: u64)
        requires
            old(self).wf(),
            old(self).tick < u64::MAX,
            resident(old(self).entries@) <= u64::MAX,
        ensures
            final(self).wf(),
            final(self).tick == old(self).tick + 1,
            resident(final(self).entries@) <= ceiling,
            exists|staged: Seq<CacheEntry>|
                {
                    let e = CacheEntry {
                        key: *key,
                        state: EntryState::Present { value, size },
                        last_used: old(self).tick,
                    };
                    &&& final(self).entries@ == #[trigger] evict_front(
                        staged,
                        resident(staged) - ceiling,
                    )
                    &&& (if has_key(old(self).entries@, key@) {
                        exists|i: int|
                            0 <= i < old(self).entries@.len() && (#[trigger] old(
                                self,
                            ).entries@[i]).key@ == key@ && staged == old(self).entries@.remove(
                                i,
                            ).push(e)
                    } else {
                        staged == old(self).entries@.push(e)
                    })
                },
    {
        let ghost orig = self.entries@;
        let mut waiters: u64 = 0;
        match self.find(key) {
            None => {
            },
            Some(i) => {
                proof {
                    lemma_resident_remove(orig, i as int);
                    lemma_resident_nonneg(orig.remove(i as int));
                }
                let e = self.entries.remove(i);
                match e.state {
                    EntryState::Loading { waiters: w } => {
                        waiters = w;
                    },
                    EntryState::Present { .. } => {
                    },
                }
            },
        }
        let e = CacheEntry {
            key: key.clone(),
            state: EntryState::Present { value, size },
            last_used: self.tick,
        };
        proof {
            lemma_resident_nonneg(self.entries@);
            lemma_resident_push(self.entries@, e);
        }
        self.entries.push(e);
        self.tick = self.tick + 1;
        let ghost staged = self.entries@;
        proof {
            assert forall|p: int, q: int|
                0 <= p < q < staged.len() implies staged[p].last_used < staged[q].last_used by {}
            assert forall|p: int, q: int|
                0 <= p < q < staged.len() implies (#[trigger] staged[p]).key@ != (
                #[trigger] staged[q]).key@ by {}
        }
        // Total resident bytes of the staged entries.
        let mut res: u128 = 0;
        let mut i: usize = 0;
        while i < self.entries.len()
            invariant
                0 <= i <= staged.len(),
                self.entries@ == staged,
                res == resident(staged.take(i as int)),
                resident(staged) <= u64::MAX as int + u64::MAX as int,
            decreases staged.len() - i,
        {
            proof {
                lemma_resident_push(staged.take(i as int), staged[i as int]);
                assert(staged.take(i + 1) =~= staged.take(i as int).push(staged[i as int]));
                lemma_resident_take(staged, i + 1);
            }
            res = res + (match &self.entries[i].state {
                EntryState::Present { size, .. } => *size,
                EntryState::Loading { .. } => 0u64,
            }) as u128;
            i = i + 1;
        }
        proof {
            assert(staged.take(staged.len() as int) =~= staged);
        }
        // Evict, least recently used first, until under the ceiling.
        let mut needed: i128 = (res as i128) - (ceiling as i128);
        let ghost needed0 = resident(staged) - ceiling;
        let mut kept: Vec<CacheEntry> = Vec::new();
        proof {
            assert(kept@ + evict_front(self.entries@, needed as int) =~= evict_front(
                staged,
                needed0,
            ));
        }
        while self.entries.len() > 0
            invariant
                self.tick == old(self).tick + 1,
                kept@ + evict_front(self.entries@, needed as int) == evict_front(staged, needed0),
                needed as int <= needed0 <= u64::MAX as int + u64::MAX as int,
                needed as int >= needed0 - resident(staged),
                resident(kept@) + resident(self.entries@) == resident(staged) + (needed as int)
                    - needed0,
                needed as int > 0 ==> resident(kept@) == 0,
                forall|p: int, q: int|
                    0 <= p < q < kept@.len() ==> kept@[p].last_used < kept@[q].last_used,
                forall|p: int, q: int|
                    0 <= p < q < kept@.len() ==> (#[trigger] kept@[p]).key@ != (
                    #[trigger] kept@[q]).key@,
                forall|p: int, q: int|
                    0 <= p < kept@.len() && 0 <= q < self.entries@.len() ==> kept@[p].last_used
                        < self.entries@[q].last_used && (#[trigger] kept@[p]).key@ != (
                    #[trigger] self.entries@[q]).key@,
                forall|p: int, q: int|
                    0 <= p < q < self.entries@.len() ==> self.entries@[p].last_used
                        < self.entries@[q].last_used,
                forall|p: int, q: int|
                    0 <= p < q < self.entries@.len() ==> (#[trigger] self.entries@[p]).key@ != (
                    #[trigger] self.entries@[q]).key@,
                forall|p: int| 0 <= p < kept@.len() ==> (#[trigger] kept@[p]).last_used < self.tick,
                forall|p: int|
                    0 <= p < self.entries@.len() ==> (#[trigger] self.entries@[p]).last_used
                        < self.tick,
            decreases self.entries@.len(),
        {
            let ghost rest0 = self.entries@;
            proof {
                lemma_resident_nonneg(rest0.drop_first());
                lemma_resident_nonneg(kept@);
            }
            let f = self.entries.remove(0);
            proof {
                assert(rest0.remove(0) =~= rest0.drop_first());
                assert(f == rest0.first());
            }
            let is_p = match &f.state {
                EntryState::Present { .. } => true,
                EntryState::Loading { .. } => false,
            };
            if is_p && needed > 0 {
                let sz = match &f.state {
                    EntryState::Present { size, .. } => *size,
                    EntryState::Loading { .. } => 0u64,
                };
                needed = needed - (sz as i128);
            } else {
                proof {
                    assert(seq![f] + evict_front(rest0.drop_first(), needed as int) =~= evict_front(
                        rest0,
                        needed as int,
                    ));
                    assert((kept@.push(f)) + evict_front(rest0.drop_first(), needed as int)
                        =~= kept@ + evict_front(rest0, needed as int));
                    lemma_resident_push(kept@, f);
                }
                kept.push(f);
            }
        }
        proof {
            assert(evict_front(self.entries@, needed as int) =~= Seq::<CacheEntry>::empty());
            assert(kept@ + evict_front(self.entries@, needed as int) =~= kept@);
            lemma_resident_nonneg(self.entries@);
            lemma_resident_nonneg(kept@);
            if needed as int > 0 {
                assert(resident(kept@) == 0);
            } else {
                assert(resident(kept@) <= resident(staged) - needed0);
            }
        }
        self.entries = kept;
        waiters
    }
}

/// The LRU bound: a cache under the ceiling that takes in one more loaded
/// entry is, before eviction restores the ceiling, at most one entry's size
/// over it.
pub proof fn lemma_lru_bound(entries: Seq<CacheEntry>, e: CacheEntry, ceiling: u64)
    requires
        resident(entries) <= ceiling,
    ensures
        resident(entries.push(e)) <= ceiling + entry_size(e),
{
    lemma_resident_push(entries, e);
}

} // verus!
