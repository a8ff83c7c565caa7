//! The row model the merge/dedup pipeline works on.
//!
//! A row is a list of tag columns (kept in the writer's column order), a
//! timestamp, and a list of fields. Row identity — the fingerprint duplicate
//! detection uses — is the pair of the tag list and the timestamp. When two
//! rows share identity, the row from the input file with the higher
//! `max_sequence_number` wins; within one file, the row at the later position
//! wins.

use vstd::prelude::*;
use crate::files::FileMeta;

verus! {

/// One tag column of a row: a name and a value.
#[derive(Debug)]
pub struct Tag {
    /// Tag column name.
    pub name: String,
    /// Tag value.
    pub value: String,
}

/// One field of a row: a name and a signed integer value.
#[derive(Debug)]
pub struct Field {
    /// Field column name.
    pub name: String,
    /// Field value.
    pub value: i64,
}

/// One row.
#[derive(Debug)]
pub struct Row {
    /// Tag columns, in the writer's column order.
    pub tags: Vec<Tag>,
    /// Timestamp in nanoseconds.
    pub time: i64,
    /// Fields.
    pub fields: Vec<Field>,
}

/// The rows of one file, together with its catalog metadata.
#[derive(Debug)]
pub struct FileRows {
    /// Catalog metadata of the file.
    pub meta: FileMeta,
    /// The rows stored in the file.
    pub rows: Vec<Row>,
}

/// Mathematical value of a tag.
pub open spec fn tag_view(t: Tag) -> (Seq<char>, Seq<char>) {
    (t.name@, t.value@)
}

/// Mathematical value of a tag list.
pub open spec fn tags_view(ts: Seq<Tag>) -> Seq<(Seq<char>, Seq<char>)> {
    ts.map_values(|t: Tag| tag_view(t))
}

/// Mathematical value of a field.
pub open spec fn field_view(f: Field) -> (Seq<char>, int) {
    (f.name@, f.value as int)
}

/// Mathematical value of a field list.
pub open spec fn fields_view(fs: Seq<Field>) -> Seq<(Seq<char>, int)> {
    fs.map_values(|f: Field| field_view(f))
}

/// Row identity: the fingerprint `(tag columns, time)` that duplicate
/// detection compares.
pub open spec fn row_key(r: Row) -> (Seq<(Seq<char>, Seq<char>)>, int) {
    (tags_view(r.tags@), r.time as int)
}

/// Full mathematical value of a row: `(tags, time, fields)`.
pub open spec fn row_view(r: Row) -> (Seq<(Seq<char>, Seq<char>)>, int, Seq<(Seq<char>, int)>) {
    (tags_view(r.tags@), r.time as int, fields_view(r.fields@))
}

/// Mathematical value of a row list.
pub open spec fn rows_view(rs: Seq<Row>) -> Seq<
    (Seq<(Seq<char>, Seq<char>)>, int, Seq<(Seq<char>, int)>),
> {
    rs.map_values(|r: Row| row_view(r))
}

/// String equality on views.
fn str_eq(a: &String, b: &String) -> (r: bool)
    ensures
        r == (a@ == b@),
{
    a.eq(b)
}

/// Do two rows share identity?
pub fn same_key(a: &Row, b: &Row) -> (r: bool)
    ensures
        r == (row_key(*a) == row_key(*b)),
{
    if a.time != b.time {
        proof {
            assert(row_key(*a).1 != row_key(*b).1);
        }
        return false;
    }
    if a.tags.len() != b.tags.len() {
        proof {
            assert(tags_view(a.tags@).len() != tags_view(b.tags@).len());
        }
        return false;
    }
    let mut i: usize = 0;
    while i < a.tags.len()
        invariant
            0 <= i <= a.tags@.len(),
            a.tags@.len() == b.tags@.len(),
            forall|j: int| 0 <= j < i ==> tag_view(a.tags@[j]) == tag_view(b.tags@[j]),
        decreases a.tags@.len() - i,
    {
        if !str_eq(&a.tags[i].name, &b.tags[i].name) || !str_eq(&a.tags[i].value, &b.tags[i].value)
        {
            proof {
                assert(tags_view(a.tags@)[i as int] != tags_view(b.tags@)[i as int]);
            }
            return false;
        }
        i = i + 1;
    }
    proof {
        assert(tags_view(a.tags@) =~~= tags_view(b.tags@));
        assert(row_key(*a) == row_key(*b));
    }
    true
}

/// Copy a row. The copy has the same mathematical value as the original.
pub fn clone_row(r: &Row) -> (c: Row)
    ensures
        c.tags@ == r.tags@,
        c.time == r.time,
        c.fields@ == r.fields@,
        row_view(c) == row_view(*r),
{
    let mut tags: Vec<Tag> = Vec::new();
    let mut i: usize = 0;
    while i < r.tags.len()
        invariant
            0 <= i <= r.tags@.len(),
            tags@ == r.tags@.take(i as int),
        decreases r.tags@.len() - i,
    {
        proof {
            assert(r.tags@.take(i + 1) =~= r.tags@.take(i as int).push(r.tags@[i as int]));
        }
        tags.push(Tag { name: r.tags[i].name.clone(), value: r.tags[i].value.clone() });
        i = i + 1;
    }
    let mut fields: Vec<Field> = Vec::new();
    let mut j: usize = 0;
    while j < r.fields.len()
        invariant
            0 <= j <= r.fields@.len(),
            fields@ == r.fields@.take(j as int),
        decreases r.fields@.len() - j,
    {
        proof {
            assert(r.fields@.take(j + 1) =~= r.fields@.take(j as int).push(r.fields@[j as int]));
        }
        fields.push(Field { name: r.fields[j].name.clone(), value: r.fields[j].value });
        j = j + 1;
    }
    proof {
        assert(r.tags@.take(r.tags@.len() as int) =~= r.tags@);
        assert(r.fields@.take(r.fields@.len() as int) =~= r.fields@);
    }
    Row { tags, time: r.time, fields }
}

/// One row tagged with its duplicate-resolution precedence: the
/// `max_sequence_number` of its file, the file's position in the input list,
/// and the row's position inside the file.
#[derive(Debug)]
pub struct Entry {
    /// The row.
    pub row: Row,
    /// `max_sequence_number` of the file the row came from.
    pub seq: i64,
    /// Position of the file in the input list.
    pub fpos: usize,
    /// Position of the row inside the file.
    pub rpos: usize,
}

/// Does `a` lose to `b` under duplicate resolution? Higher sequence number
/// wins; then the later file in input order; then the later row in the file.
pub open spec fn prec_lt(a: Entry, b: Entry) -> bool {
    a.seq < b.seq || (a.seq == b.seq && (a.fpos < b.fpos || (a.fpos == b.fpos && a.rpos
        < b.rpos)))
}

/// Precedence test.
pub fn prec_lt_exec(a: &Entry, b: &Entry) -> (r: bool)
    ensures
        r == prec_lt(*a, *b),
{
    a.seq < b.seq || (a.seq == b.seq && (a.fpos < b.fpos || (a.fpos == b.fpos && a.rpos
        < b.rpos)))
}

/// The entries of the `fpos`-th input file.
pub open spec fn file_entries(f: FileRows, fpos: int) -> Seq<Entry> {
    Seq::new(
        f.rows@.len(),
        |i: int|
            Entry {
                row: f.rows@[i],
                seq: f.meta.max_sequence_number,
                fpos: fpos as usize,
                rpos: i as usize,
            },
    )
}

/// All entries of the first `k` input files, in file order.
pub open spec fn all_entries(files: Seq<FileRows>, k: int) -> Seq<Entry>
    decreases k,
{
    if k <= 0 {
        Seq::empty()
    } else {
        all_entries(files, k - 1) + file_entries(files[k - 1], k - 1)
    }
}

/// Entry `i` survives dedup when no entry with the same row identity beats it.
pub open spec fn is_winner(es: Seq<Entry>, i: int) -> bool {
    forall|j: int|
        0 <= j < es.len() && row_key(es[j].row) == row_key(es[i].row) ==> !prec_lt(es[i], es[j])
}

/// The values of the rows of the surviving entries among the first `k`, in
/// entry order.
pub open spec fn winners_prefix(es: Seq<Entry>, k: int) -> Seq<
    (Seq<(Seq<char>, Seq<char>)>, int, Seq<(Seq<char>, int)>),
>
    decreases k,
{
    if k <= 0 {
        Seq::empty()
    } else {
        let rest = winners_prefix(es, k - 1);
        if is_winner(es, k - 1) {
            rest.push(row_view(es[k - 1].row))
        } else {
            rest
        }
    }
}

/// The values of the rows that survive dedup, in entry order.
pub open spec fn winners(es: Seq<Entry>) -> Seq<
    (Seq<(Seq<char>, Seq<char>)>, int, Seq<(Seq<char>, int)>),
> {
    winners_prefix(es, es.len() as int)
}

/// Flatten input files into precedence-tagged entries.
pub fn flatten_files(files: Vec<FileRows>) -> (es: Vec<Entry>)
    ensures
        es@ == all_entries(files@, files@.len() as int),
{
    let ghost gfiles = files@;
    let mut files = files;
    let mut es: Vec<Entry> = Vec::new();
    let mut i: usize = 0;
    let n = files.len();
    proof {
        assert(n == files@.len());
    }
    while files.len() > 0
        invariant
            0 <= i <= gfiles.len(),
            i + files@.len() <= usize::MAX,
            files@ == gfiles.skip(i as int),
            es@ == all_entries(gfiles, i as int),
        decreases files@.len(),
    {
        let f = files.remove(0);
        proof {
            assert(gfiles.skip(i as int).remove(0) =~= gfiles.skip(i + 1));
            assert(f == gfiles[i as int]);
        }
        let meta = f.meta;
        let mut rows = f.rows;
        let ghost grows = gfiles[i as int].rows@;
        let mut j: usize = 0;
        let m = rows.len();
        proof {
            assert(m == rows@.len());
        }
        while rows.len() > 0
            invariant
                0 <= j <= grows.len(),
                j + rows@.len() <= usize::MAX,
                0 <= i < gfiles.len(),
                grows == gfiles[i as int].rows@,
                meta == gfiles[i as int].meta,
                rows@ == grows.skip(j as int),
                es@ == all_entries(gfiles, i as int) + file_entries(gfiles[i as int], i as int).take(
                    j as int,
                ),
            decreases rows@.len(),
        {
            let r = rows.remove(0);
            proof {
                assert(grows.skip(j as int).remove(0) =~= grows.skip(j + 1));
                assert(r == grows[j as int]);
            }
            let e = Entry { row: r, seq: meta.max_sequence_number, fpos: i, rpos: j };
            proof {
                assert(file_entries(gfiles[i as int], i as int)[j as int] == e);
                assert(file_entries(gfiles[i as int], i as int).take(j + 1) =~= file_entries(
                    gfiles[i as int],
                    i as int,
                ).take(j as int).push(e));
            }
            es.push(e);
            j = j + 1;
        }
        proof {
            assert(grows.skip(grows.len() as int) =~= Seq::<Row>::empty());
            assert(j == grows.len());
            assert(file_entries(gfiles[i as int], i as int).take(j as int) =~= file_entries(
                gfiles[i as int],
                i as int,
            ));
        }
        i = i + 1;
    }
    proof {
        assert(gfiles.skip(i as int).len() == 0);
        assert(i == gfiles.len());
    }
    es
}

/// Deduplicate the entries: keep, for every row identity, exactly the entry
/// with the highest precedence — the highest file `max_sequence_number`, ties
/// broken towards the later file and then the later row within the file.
pub fn dedup_entries(es: &Vec<Entry>) -> (out: Vec<Row>)
    ensures
        rows_view(out@) == winners(es@),
{
    let mut out: Vec<Row> = Vec::new();
    let mut i: usize = 0;
    while i < es.len()
        invariant
            0 <= i <= es@.len(),
            rows_view(out@) == winners_prefix(es@, i as int),
        decreases es@.len() - i,
    {
        let mut beaten = false;
        let mut j: usize = 0;
        while j < es.len()
            invariant
                0 <= j <= es@.len(),
                0 <= i < es@.len(),
                beaten == exists|m: int|
                    0 <= m < j && row_key(es@[m].row) == row_key(es@[i as int].row) && prec_lt(
                        es@[i as int],
                        es@[m],
                    ),
            decreases es@.len() - j,
        {
            if same_key(&es[j].row, &es[i].row) && prec_lt_exec(&es[i], &es[j]) {
                beaten = true;
            }
            j = j + 1;
        }
        if !beaten {
            let c = clone_row(&es[i].row);
            proof {
                assert(rows_view(out@.push(c)) =~= rows_view(out@).push(row_view(c)));
            }
            out.push(c);
        } else {
            proof {
                assert(!is_winner(es@, i as int));
            }
        }
        i = i + 1;
    }
    out
}

/// Merge the rows of the input files and deduplicate them: the result holds,
/// for every row identity present in the inputs, exactly the surviving row
/// under duplicate resolution, in input order.
pub fn merge_dedup(files: Vec<FileRows>) -> (out: Vec<Row>)
    ensures
        rows_view(out@) == winners(all_entries(files@, files@.len() as int)),
{
    let es = flatten_files(files);
    dedup_entries(&es)
}

/// Row preservation: when no two entries share a row identity, dedup keeps
/// every row, in order — so the rows (and hence the multiset of
/// `(tags, time, fields)` values) of the output equal those of the input.
pub proof fn lemma_row_preservation(es: Seq<Entry>)
    requires
        forall|i: int, j: int|
            0 <= i < es.len() && 0 <= j < es.len() && i != j ==> row_key(es[i].row) != row_key(
                es[j].row,
            ),
    ensures
        winners(es) == es.map_values(|e: Entry| row_view(e.row)),
{
    lemma_row_preservation_prefix(es, es.len() as int);
    assert(es.take(es.len() as int) =~= es);
}

/// Dedup completeness: every row identity present among the entries has a
/// surviving entry — one with that identity that no entry beats.
pub proof fn lemma_dedup_complete(es: Seq<Entry>, j: int)
    requires
        0 <= j < es.len(),
    ensures
        exists|i: int|
            0 <= i < es.len() && is_winner(es, i) && row_key(es[i].row) == row_key(es[j].row),
{
    lemma_best_in_prefix(es, row_key(es[j].row), es.len() as int);
    let b = choose|b: int|
        0 <= b < es.len() && row_key(es[b].row) == row_key(es[j].row) && forall|m: int|
            0 <= m < es.len() && #[trigger] row_key(es[m].row) == row_key(es[b].row)
                ==> !prec_lt(es[b], es[m]);
    assert(is_winner(es, b));
}

/// Among the first `k` entries, every row identity that occurs has a maximal
/// entry under precedence.
proof fn lemma_best_in_prefix(es: Seq<Entry>, key: (Seq<(Seq<char>, Seq<char>)>, int), k: int)
    requires
        0 < k <= es.len(),
        exists|i: int| 0 <= i < k && #[trigger] row_key(es[i].row) == key,
    ensures
        exists|b: int|
            0 <= b < es.len() && row_key(es[b].row) == key && forall|m: int|
                0 <= m < k && #[trigger] row_key(es[m].row) == row_key(es[b].row) ==> !prec_lt(
                    es[b],
                    es[m],
                ),
    decreases k,
{
    let last = k - 1;
    if exists|i: int| 0 <= i < k - 1 && #[trigger] row_key(es[i].row) == key {
        lemma_best_in_prefix(es, key, k - 1);
        let b = choose|b: int|
            0 <= b < es.len() && row_key(es[b].row) == key && forall|m: int|
                0 <= m < k - 1 && #[trigger] row_key(es[m].row) == row_key(es[b].row)
                    ==> !prec_lt(es[b], es[m]);
        if row_key(es[last].row) == key && prec_lt(es[b], es[last]) {
            assert forall|m: int|
                0 <= m < k && #[trigger] row_key(es[m].row) == row_key(
                    es[last].row,
                ) implies !prec_lt(es[last], es[m]) by {
                if m < k - 1 {
                    assert(!prec_lt(es[b], es[m]));
                }
            }
        } else {
            assert forall|m: int|
                0 <= m < k && #[trigger] row_key(es[m].row) == row_key(
                    es[b].row,
                ) implies !prec_lt(es[b], es[m]) by {
                if m == last {
                    assert(!prec_lt(es[b], es[last]));
                }
            }
        }
    } else {
        assert(row_key(es[last].row) == key);
        assert forall|m: int|
            0 <= m < k && #[trigger] row_key(es[m].row) == row_key(
                es[last].row,
            ) implies !prec_lt(es[last], es[m]) by {
            assert(m == last);
        }
    }
}

proof fn lemma_row_preservation_prefix(es: Seq<Entry>, k: int)
    requires
        0 <= k <= es.len(),
        forall|i: int, j: int|
            0 <= i < es.len() && 0 <= j < es.len() && i != j ==> row_key(es[i].row) != row_key(
                es[j].row,
            ),
    ensures
        winners_prefix(es, k) == es.take(k).map_values(|e: Entry| row_view(e.row)),
    decreases k,
{
    if k == 0 {
        assert(winners_prefix(es, 0) =~= es.take(0).map_values(|e: Entry| row_view(e.row)));
    } else {
        lemma_row_preservation_prefix(es, k - 1);
        assert(is_winner(es, k - 1)) by {
            assert forall|j: int|
                0 <= j < es.len() && #[trigger] row_key(es[j].row) == row_key(
                    es[k - 1].row,
                ) implies !prec_lt(es[k - 1], es[j]) by {
                assert(j == k - 1);
            }
        }
        assert(winners_prefix(es, k) =~= es.take(k).map_values(|e: Entry| row_view(e.row)));
    }
}

} // verus!
