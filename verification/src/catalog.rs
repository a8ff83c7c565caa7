//! A model of the catalog's parquet-file table: the file rows of one shard,
//! and the transactions compaction issues against them — creating output
//! files, flagging inputs for deletion, and promoting levels without a
//! rewrite.
//!
//! Each operation is a value-to-value transformation whose effect is stated
//! exactly; the swap is the model of the one transactional step of a
//! compaction operation.

use vstd::prelude::*;
use crate::files::{CompactionLevel, FileMeta};

verus! {

/// The catalog's view of the parquet files, with the id counter the next
/// created file will get.
#[derive(Debug)]
pub struct CatalogState {
    /// All file rows, live and flagged, in creation order.
    pub files: Vec<FileMeta>,
    /// Id the next created file row will get.
    pub next_id: u64,
}

/// What a caller supplies when creating a file row; the catalog assigns the
/// id.
#[derive(Clone, Copy, Debug, PartialEq, Eq, Structural)]
pub struct FileParams {
    /// Partition the file belongs to.
    pub partition_id: u64,
    /// Object-store id the blob was written under.
    pub object_store_id: u128,
    /// Smallest row timestamp.
    pub min_time: i64,
    /// Largest row timestamp.
    pub max_time: i64,
    /// Largest contributing sequence number.
    pub max_sequence_number: i64,
    /// Number of rows.
    pub row_count: u64,
    /// Encoded size in bytes.
    pub file_size_bytes: u64,
    /// Level the file is written at.
    pub compaction_level: CompactionLevel,
    /// Creation time.
    pub created_at: i64,
}

/// The file row a creation with these parameters inserts.
pub open spec fn created_file(p: FileParams, id: u64) -> FileMeta {
    FileMeta {
        id,
        partition_id: p.partition_id,
        object_store_id: p.object_store_id,
        min_time: p.min_time,
        max_time: p.max_time,
        max_sequence_number: p.max_sequence_number,
        row_count: p.row_count,
        file_size_bytes: p.file_size_bytes,
        compaction_level: p.compaction_level,
        created_at: p.created_at,
        to_delete: false,
    }
}

impl CatalogState {
    /// Catalog well-formedness: every file id is below the counter, so ids
    /// never repeat.
    pub open spec fn wf(self) -> bool {
        &&& forall|i: int| 0 <= i < self.files@.len() ==> (#[trigger] self.files@[i]).id
            < self.next_id
        &&& forall|i: int, j: int|
            0 <= i < j < self.files@.len() ==> self.files@[i].id != self.files@[j].id
    }

    /// An empty catalog, counting ids from 1 as the catalog does.
    pub fn new() -> (r: Self)
        ensures
            r.wf(),
            r.files@ == Seq::<FileMeta>::empty(),
            r.next_id == 1,
    {
        CatalogState { files: Vec::new(), next_id: 1 }
    }

    /// Create one file row. The new row gets the next id and is live.
    pub fn create(self, p: FileParams) -> (r: (Self, FileMeta))
        requires
            self.wf(),
            self.next_id < u64::MAX,
        ensures
            r.0.wf(),
            r.1 == created_file(p, self.next_id),
            r.0.files@ == self.files@.push(r.1),
            r.0.next_id == self.next_id + 1,
    {
        let meta = FileMeta {
            id: self.next_id,
            partition_id: p.partition_id,
            object_store_id: p.object_store_id,
            min_time: p.min_time,
            max_time: p.max_time,
            max_sequence_number: p.max_sequence_number,
            row_count: p.row_count,
            file_size_bytes: p.file_size_bytes,
            compaction_level: p.compaction_level,
            created_at: p.created_at,
            to_delete: false,
        };
        let mut files = self.files;
        files.push(meta);
        (CatalogState { files, next_id: self.next_id + 1 }, meta)
    }

    /// Flag every listed file for deletion, in one transaction.
    pub fn flag_many(self, ids: &Vec<u64>) -> (r: Self)
        requires
            self.wf(),
        ensures
            r.wf(),
            r.files@ == flag_all(self.files@, ids@),
            r.next_id == self.next_id,
    {
        let ghost orig = self.files@;
        let mut files = self.files;
        let mut i: usize = 0;
        let mut out: Vec<FileMeta> = Vec::new();
        let n = files.len();
        proof {
            assert(n == files@.len());
        }
        while files.len() > 0
            invariant
                0 <= i <= orig.len(),
                i + files@.len() <= usize::MAX,
                files@ == orig.skip(i as int),
                out@ =~= flag_all(orig.take(i as int), ids@),
            decreases files@.len(),
        {
            let f = files.remove(0);
            proof {
                assert(orig.skip(i as int).remove(0) =~= orig.skip(i + 1));
                assert(f == orig[i as int]);
                assert(flag_all(orig.take(i + 1), ids@) =~= flag_all(orig.take(i as int), ids@).push(
                    if contains_id(ids@, f.id) {
                        FileMeta { to_delete: true, ..f }
                    } else {
                        f
                    },
                ));
            }
            if contains_id_exec_pub(ids, f.id) {
                out.push(FileMeta { to_delete: true, ..f });
            } else {
                out.push(f);
            }
            i = i + 1;
        }
        proof {
            assert(orig.skip(i as int).len() == 0);
            assert(i == orig.len());
            assert(orig.take(orig.len() as int) =~= orig);
            assert(out@ =~= flag_all(orig, ids@));
            assert forall|k: int| 0 <= k < out@.len() implies (#[trigger] out@[k]).id == orig[k].id
                by {}
        }
        CatalogState { files: out, next_id: self.next_id }
    }
}

/// One file row after a deletion flagging of `id`.
pub open spec fn flag_one(f: FileMeta, id: u64) -> FileMeta {
    if f.id == id {
        FileMeta { to_delete: true, ..f }
    } else {
        f
    }
}

/// The file rows after flagging `id` for deletion.
pub open spec fn flag_in(files: Seq<FileMeta>, id: u64) -> Seq<FileMeta> {
    files.map_values(|f: FileMeta| flag_one(f, id))
}

/// Does the list contain this id?
pub open spec fn contains_id(ids: Seq<u64>, id: u64) -> bool {
    exists|i: int| 0 <= i < ids.len() && ids[i] == id
}

/// One file row after promoting the listed files to `level`.
pub open spec fn promote_one(f: FileMeta, ids: Seq<u64>, level: CompactionLevel) -> FileMeta {
    if contains_id(ids, f.id) {
        FileMeta { compaction_level: level, ..f }
    } else {
        f
    }
}

/// The file rows after promoting the listed files to `level`.
pub open spec fn promote_in(files: Seq<FileMeta>, ids: Seq<u64>, level: CompactionLevel) -> Seq<
    FileMeta,
> {
    files.map_values(|f: FileMeta| promote_one(f, ids, level))
}

/// The file rows after flagging every listed id for deletion.
pub open spec fn flag_all(files: Seq<FileMeta>, ids: Seq<u64>) -> Seq<FileMeta> {
    files.map_values(
        |f: FileMeta|
            if contains_id(ids, f.id) {
                FileMeta { to_delete: true, ..f }
            } else {
                f
            },
    )
}

/// Test whether a vector of ids holds `id`.
pub fn contains_id_exec_pub(ids: &Vec<u64>, id: u64) -> (r: bool)
    ensures
        r == contains_id(ids@, id),
{
    let mut i: usize = 0;
    while i < ids.len()
        invariant
            0 <= i <= ids@.len(),
            forall|j: int| 0 <= j < i ==> ids@[j] != id,
        decreases ids@.len() - i,
    {
        if ids[i] == id {
            return true;
        }
        i = i + 1;
    }
    false
}

impl CatalogState {
    /// Flag one file for deletion: it stays catalog-visible but compaction
    /// ignores it until the garbage collector erases it.
    pub fn flag_for_delete(self, id: u64) -> (r: Self)
        requires
            self.wf(),
        ensures
            r.wf(),
            r.files@ == flag_in(self.files@, id),
            r.next_id == self.next_id,
    {
        let ghost orig = self.files@;
        let mut files = self.files;
        let mut i: usize = 0;
        let mut out: Vec<FileMeta> = Vec::new();
        let n = files.len();
        proof {
            assert(n == files@.len());
        }
        while files.len() > 0
            invariant
                0 <= i <= orig.len(),
                i + files@.len() <= usize::MAX,
                files@ == orig.skip(i as int),
                out@ =~= flag_in(orig.take(i as int), id),
            decreases files@.len(),
        {
            let f = files.remove(0);
            proof {
                assert(orig.skip(i as int).remove(0) =~= orig.skip(i + 1));
                assert(f == orig[i as int]);
                assert(flag_in(orig.take(i + 1), id) =~= flag_in(orig.take(i as int), id).push(
                    flag_one(f, id),
                ));
            }
            if f.id == id {
                out.push(FileMeta { to_delete: true, ..f });
            } else {
                out.push(f);
            }
            i = i + 1;
        }
        proof {
            assert(orig.skip(i as int).len() == 0);
            assert(i == orig.len());
            assert(orig.take(orig.len() as int) =~= orig);
            assert(out@ =~= flag_in(orig, id));
            assert forall|k: int| 0 <= k < out@.len() implies (#[trigger] out@[k]).id == orig[k].id
                by {}
        }
        CatalogState { files: out, next_id: self.next_id }
    }

    /// Set the compaction level of the listed files, in one transaction. The
    /// promotion path uses this to upgrade a file without rewriting bytes.
    pub fn update_compaction_level(self, ids: &Vec<u64>, level: CompactionLevel) -> (r: Self)
        requires
            self.wf(),
        ensures
            r.wf(),
            r.files@ == promote_in(self.files@, ids@, level),
            r.next_id == self.next_id,
    {
        let ghost orig = self.files@;
        let mut files = self.files;
        let mut i: usize = 0;
        let mut out: Vec<FileMeta> = Vec::new();
        let n = files.len();
        proof {
            assert(n == files@.len());
        }
        while files.len() > 0
            invariant
                0 <= i <= orig.len(),
                i + files@.len() <= usize::MAX,
                files@ == orig.skip(i as int),
                out@ =~= promote_in(orig.take(i as int), ids@, level),
            decreases files@.len(),
        {
            let f = files.remove(0);
            proof {
                assert(orig.skip(i as int).remove(0) =~= orig.skip(i + 1));
                assert(f == orig[i as int]);
                assert(promote_in(orig.take(i + 1), ids@, level) =~= promote_in(
                    orig.take(i as int),
                    ids@,
                    level,
                ).push(promote_one(f, ids@, level)));
            }
            if contains_id_exec_pub(ids, f.id) {
                out.push(FileMeta { compaction_level: level, ..f });
            } else {
                out.push(f);
            }
            i = i + 1;
        }
        proof {
            assert(orig.skip(i as int).len() == 0);
            assert(i == orig.len());
            assert(orig.take(orig.len() as int) =~= orig);
            assert(out@ =~= promote_in(orig, ids@, level));
            assert forall|k: int| 0 <= k < out@.len() implies (#[trigger] out@[k]).id == orig[k].id
                by {}
        }
        CatalogState { files: out, next_id: self.next_id }
    }
}

/// Promotion is idempotent: issuing the same level change twice leaves the
/// catalog exactly as one call does.
pub proof fn lemma_promotion_idempotent(files: Seq<FileMeta>, ids: Seq<u64>, level: CompactionLevel)
    ensures
        promote_in(promote_in(files, ids, level), ids, level) == promote_in(files, ids, level),
{
    let once = promote_in(files, ids, level);
    assert forall|i: int| 0 <= i < once.len() implies #[trigger] promote_in(once, ids, level)[i]
        == once[i] by {
        assert(promote_one(files[i], ids, level).id == files[i].id);
    }
    assert(promote_in(once, ids, level) =~= once);
}

} // verus!
