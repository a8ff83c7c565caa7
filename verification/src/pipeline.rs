//! The merge/dedup/split pipeline and the per-partition compaction drivers.
//!
//! One compaction operation takes a selected set of input files, merges and
//! deduplicates their rows, optionally splits the result at a time point, and
//! swaps the outputs for the inputs in the catalog: the outputs are created at
//! the target level and every input is flagged for deletion, in one
//! transaction.

use vstd::prelude::*;
use crate::catalog::{CatalogState, FileParams, contains_id, flag_all, promote_in};
use crate::combine::{
    needs_split, rows_above, rows_at_most, spec_needs_split, spec_split_time, split_rows,
    split_time, rows_time_bounds,
};
use crate::files::{CompactionLevel, FileMeta};
use crate::filter::{total_file_size, total_file_size_exec};
use crate::ids::{fresh_object_store_id, is_v4_id};
use crate::rows::{FileRows, Row, all_entries, rows_view, winners};

verus! {

/// The metadata of each file, in order.
pub open spec fn metas_of(files: Seq<FileRows>) -> Seq<FileMeta> {
    files.map_values(|f: FileRows| f.meta)
}

/// The catalog ids of each file, in order.
pub open spec fn ids_of(files: Seq<FileRows>) -> Seq<u64> {
    files.map_values(|f: FileRows| f.meta.id)
}

/// The largest `max_sequence_number` among the files.
pub open spec fn max_seq_of(metas: Seq<FileMeta>) -> int
    decreases metas.len(),
{
    if metas.len() == 0 {
        i64::MIN as int
    } else {
        let rest = max_seq_of(metas.drop_last());
        if metas.last().max_sequence_number >= rest {
            metas.last().max_sequence_number as int
        } else {
            rest
        }
    }
}

/// The row values among `vs` whose timestamp is at or before `t`, in order.
pub open spec fn views_at_most(
    vs: Seq<(Seq<(Seq<char>, Seq<char>)>, int, Seq<(Seq<char>, int)>)>,
    t: int,
) -> Seq<(Seq<(Seq<char>, Seq<char>)>, int, Seq<(Seq<char>, int)>)>
    decreases vs.len(),
{
    if vs.len() == 0 {
        Seq::empty()
    } else {
        let rest = views_at_most(vs.drop_last(), t);
        if vs.last().1 <= t {
            rest.push(vs.last())
        } else {
            rest
        }
    }
}

/// The row values among `vs` whose timestamp is after `t`, in order.
pub open spec fn views_above(
    vs: Seq<(Seq<(Seq<char>, Seq<char>)>, int, Seq<(Seq<char>, int)>)>,
    t: int,
) -> Seq<(Seq<(Seq<char>, Seq<char>)>, int, Seq<(Seq<char>, int)>)>
    decreases vs.len(),
{
    if vs.len() == 0 {
        Seq::empty()
    } else {
        let rest = views_above(vs.drop_last(), t);
        if vs.last().1 > t {
            rest.push(vs.last())
        } else {
            rest
        }
    }
}

/// Splitting rows and taking their values commutes with taking values and
/// splitting them.
pub proof fn lemma_views_split_commute(rs: Seq<Row>, t: int)
    ensures
        rows_view(rows_at_most(rs, t)) == views_at_most(rows_view(rs), t),
        rows_view(rows_above(rs, t)) == views_above(rows_view(rs), t),
    decreases rs.len(),
{
    if rs.len() == 0 {
        assert(rows_view(rows_at_most(rs, t)) =~= views_at_most(rows_view(rs), t));
        assert(rows_view(rows_above(rs, t)) =~= views_above(rows_view(rs), t));
    } else {
        lemma_views_split_commute(rs.drop_last(), t);
        assert(rows_view(rs).drop_last() =~= rows_view(rs.drop_last()));
        assert(rows_view(rs).last() == crate::rows::row_view(rs.last()));
        if rs.last().time <= t {
            assert(rows_view(rows_at_most(rs, t)) =~= rows_view(
                rows_at_most(rs.drop_last(), t),
            ).push(crate::rows::row_view(rs.last())));
            assert(rows_view(rows_above(rs, t)) =~= rows_view(rows_above(rs.drop_last(), t)));
        } else {
            assert(rows_view(rows_at_most(rs, t)) =~= rows_view(rows_at_most(rs.drop_last(), t)));
            assert(rows_view(rows_above(rs, t)) =~= rows_view(
                rows_above(rs.drop_last(), t),
            ).push(crate::rows::row_view(rs.last())));
        }
        assert(views_at_most(rows_view(rs), t) =~= if rows_view(rs).last().1 <= t {
            views_at_most(rows_view(rs).drop_last(), t).push(rows_view(rs).last())
        } else {
            views_at_most(rows_view(rs).drop_last(), t)
        });
        assert(views_above(rows_view(rs), t) =~= if rows_view(rs).last().1 > t {
            views_above(rows_view(rs).drop_last(), t).push(rows_view(rs).last())
        } else {
            views_above(rows_view(rs).drop_last(), t)
        });
    }
}

/// `mn` and `mx` are the smallest and largest timestamps among the row values.
pub open spec fn view_time_bounds(
    vs: Seq<(Seq<(Seq<char>, Seq<char>)>, int, Seq<(Seq<char>, int)>)>,
    mn: int,
    mx: int,
) -> bool {
    &&& forall|i: int| 0 <= i < vs.len() ==> mn <= #[trigger] vs[i].1 <= mx
    &&& exists|i: int| 0 <= i < vs.len() && #[trigger] vs[i].1 == mn
    &&& exists|i: int| 0 <= i < vs.len() && #[trigger] vs[i].1 == mx
}

/// A well-formed output of one compaction operation: written at the target
/// level, live, with its metadata bounding and counting its own rows.
pub open spec fn output_wf(o: FileRows, target: CompactionLevel, partition_id: u64) -> bool {
    &&& o.meta.compaction_level == target
    &&& !o.meta.to_delete
    &&& o.meta.partition_id == partition_id
    &&& o.meta.row_count == o.rows@.len()
    &&& o.meta.min_time <= o.meta.max_time
    &&& forall|i: int|
        0 <= i < o.rows@.len() ==> o.meta.min_time <= #[trigger] o.rows@[i].time <= o.meta.max_time
    &&& is_v4_id(o.meta.object_store_id)
}

/// Everything one compaction operation promises, as a relation between the
/// catalog before, the catalog after, and the produced output files.
pub open spec fn compact_post(
    inputs: Seq<FileRows>,
    partition_id: u64,
    target_level: CompactionLevel,
    max_desired_file_size_bytes: u64,
    percentage_max_file_size: u64,
    split_percentage: u64,
    cat_old: CatalogState,
    cat_new: CatalogState,
    outputs: Seq<FileRows>,
) -> bool {
    let w = winners(all_entries(inputs, inputs.len() as int));
    &&& cat_new.wf()
    &&& cat_new.next_id >= cat_old.next_id
    &&& cat_new.files@ == flag_all(cat_old.files@, ids_of(inputs)) + metas_of(outputs)
    &&& forall|k: int|
        0 <= k < outputs.len() ==> output_wf(#[trigger] outputs[k], target_level, partition_id)
    &&& forall|k: int|
        0 <= k < outputs.len() ==> (#[trigger] outputs[k]).meta.max_sequence_number as int
            == max_seq_of(metas_of(inputs))
    &&& forall|k: int|
        0 <= k < outputs.len() ==> (#[trigger] outputs[k]).meta.id >= cat_old.next_id
    &&& outputs.len() <= 2
    &&& (w.len() == 0 ==> outputs.len() == 0)
    &&& (w.len() > 0 ==> exists|mn: int, mx: int|
        {
            &&& #[trigger] view_time_bounds(w, mn, mx)
            &&& {
                let t = spec_split_time(mn, mx, split_percentage as int);
                let total = total_file_size(metas_of(inputs));
                if spec_needs_split(total, max_desired_file_size_bytes, percentage_max_file_size)
                    && t < mx {
                    &&& outputs.len() == 2
                    &&& rows_view(outputs[0].rows@) == views_at_most(w, t)
                    &&& rows_view(outputs[1].rows@) == views_above(w, t)
                    &&& outputs[0].meta.file_size_bytes as int == total as int
                        * split_percentage as int / 100
                    &&& outputs[1].meta.file_size_bytes as int == total as int - total as int
                        * split_percentage as int / 100
                } else {
                    &&& outputs.len() == 1
                    &&& outputs[0].meta.file_size_bytes == total
                    &&& rows_view(outputs[0].rows@) == w
                }
            }
        })
}

/// The row values of the files' rows, concatenated in file order.
pub open spec fn files_rows_view(files: Seq<FileRows>) -> Seq<
    (Seq<(Seq<char>, Seq<char>)>, int, Seq<(Seq<char>, int)>),
>
    decreases files.len(),
{
    if files.len() == 0 {
        Seq::empty()
    } else {
        files_rows_view(files.drop_last()) + rows_view(files.last().rows@)
    }
}

/// The flattened entries carry exactly the files' rows, in order.
pub proof fn lemma_entries_rows(files: Seq<FileRows>, k: int)
    requires
        0 <= k <= files.len(),
    ensures
        all_entries(files, k).map_values(|e: crate::rows::Entry| crate::rows::row_view(e.row))
            == files_rows_view(files.take(k)),
    decreases k,
{
    if k == 0 {
        assert(all_entries(files, 0).map_values(
            |e: crate::rows::Entry| crate::rows::row_view(e.row),
        ) =~= files_rows_view(files.take(0)));
    } else {
        lemma_entries_rows(files, k - 1);
        assert(files.take(k).drop_last() =~= files.take(k - 1));
        assert(files.take(k).last() == files[k - 1]);
        assert(all_entries(files, k).map_values(
            |e: crate::rows::Entry| crate::rows::row_view(e.row),
        ) =~= files_rows_view(files.take(k)));
    }
}

/// Splitting row values at a time point loses none and invents none.
pub proof fn lemma_views_split_multiset(
    vs: Seq<(Seq<(Seq<char>, Seq<char>)>, int, Seq<(Seq<char>, int)>)>,
    t: int,
)
    ensures
        views_at_most(vs, t).to_multiset().add(views_above(vs, t).to_multiset())
            == vs.to_multiset(),
    decreases vs.len(),
{
    broadcast use vstd::seq_lib::group_to_multiset_ensures;

    if vs.len() == 0 {
        assert(views_at_most(vs, t) =~= Seq::empty());
        assert(views_above(vs, t) =~= Seq::empty());
        assert(views_at_most(vs, t).to_multiset().add(views_above(vs, t).to_multiset())
            =~= vs.to_multiset());
    } else {
        lemma_views_split_multiset(vs.drop_last(), t);
        assert(vs =~= vs.drop_last().push(vs.last()));
        assert(views_at_most(vs, t).to_multiset().add(views_above(vs, t).to_multiset())
            =~= vs.to_multiset());
    }
}

/// Row preservation of an unsplit compaction operation: when no two input
/// rows share an identity, the single output's row values are exactly the
/// inputs' row values, in entry order — so their multisets agree.
pub proof fn lemma_pass_rows_single(inputs: Seq<FileRows>, out_rows: Seq<Row>)
    requires
        rows_view(out_rows) == winners(all_entries(inputs, inputs.len() as int)),
        forall|i: int, j: int|
            #![trigger all_entries(inputs, inputs.len() as int)[i], all_entries(inputs, inputs.len() as int)[j]]
            (0 <= i < all_entries(inputs, inputs.len() as int).len() && 0 <= j < all_entries(
                inputs,
                inputs.len() as int,
            ).len() && i != j ==> crate::rows::row_key(
                all_entries(inputs, inputs.len() as int)[i].row,
            ) != crate::rows::row_key(all_entries(inputs, inputs.len() as int)[j].row)),
    ensures
        rows_view(out_rows) == files_rows_view(inputs),
        rows_view(out_rows).to_multiset() == files_rows_view(inputs).to_multiset(),
{
    let es = all_entries(inputs, inputs.len() as int);
    crate::rows::lemma_row_preservation(es);
    lemma_entries_rows(inputs, inputs.len() as int);
    assert(inputs.take(inputs.len() as int) =~= inputs);
    assert(es.map_values(|e: crate::rows::Entry| crate::rows::row_view(e.row)) == es.map_values(
        |e: crate::rows::Entry| crate::rows::row_view(e.row),
    ));
}

/// Row preservation of a split compaction operation: when no two input rows
/// share an identity, the two outputs' row values together are exactly the
/// inputs' row values, as a multiset.
pub proof fn lemma_pass_rows_split(
    inputs: Seq<FileRows>,
    rows0: Seq<Row>,
    rows1: Seq<Row>,
    t: int,
)
    requires
        rows_view(rows0) == views_at_most(winners(all_entries(inputs, inputs.len() as int)), t),
        rows_view(rows1) == views_above(winners(all_entries(inputs, inputs.len() as int)), t),
        forall|i: int, j: int|
            #![trigger all_entries(inputs, inputs.len() as int)[i], all_entries(inputs, inputs.len() as int)[j]]
            (0 <= i < all_entries(inputs, inputs.len() as int).len() && 0 <= j < all_entries(
                inputs,
                inputs.len() as int,
            ).len() && i != j ==> crate::rows::row_key(
                all_entries(inputs, inputs.len() as int)[i].row,
            ) != crate::rows::row_key(all_entries(inputs, inputs.len() as int)[j].row)),
    ensures
        rows_view(rows0).to_multiset().add(rows_view(rows1).to_multiset()) == files_rows_view(
            inputs,
        ).to_multiset(),
{
    let es = all_entries(inputs, inputs.len() as int);
    let w = winners(es);
    crate::rows::lemma_row_preservation(es);
    lemma_entries_rows(inputs, inputs.len() as int);
    assert(inputs.take(inputs.len() as int) =~= inputs);
    lemma_views_split_multiset(w, t);
}

/// Collect the metadata of the files.
pub fn extract_metas(files: &Vec<FileRows>) -> (r: Vec<FileMeta>)
    ensures
        r@ == metas_of(files@),
{
    let mut r: Vec<FileMeta> = Vec::new();
    let mut i: usize = 0;
    while i < files.len()
        invariant
            0 <= i <= files@.len(),
            r@ =~= metas_of(files@.take(i as int)),
        decreases files@.len() - i,
    {
        proof {
            assert(metas_of(files@.take(i + 1)) =~= metas_of(files@.take(i as int)).push(
                files@[i as int].meta,
            ));
        }
        r.push(files[i].meta);
        i = i + 1;
    }
    proof {
        assert(files@.take(files@.len() as int) =~= files@);
    }
    r
}

/// Collect the catalog ids of the files.
pub fn extract_ids(files: &Vec<FileRows>) -> (r: Vec<u64>)
    ensures
        r@ == ids_of(files@),
{
    let mut r: Vec<u64> = Vec::new();
    let mut i: usize = 0;
    while i < files.len()
        invariant
            0 <= i <= files@.len(),
            r@ =~= ids_of(files@.take(i as int)),
        decreases files@.len() - i,
    {
        proof {
            assert(ids_of(files@.take(i + 1)) =~= ids_of(files@.take(i as int)).push(
                files@[i as int].meta.id,
            ));
        }
        r.push(files[i].meta.id);
        i = i + 1;
    }
    proof {
        assert(files@.take(files@.len() as int) =~= files@);
    }
    r
}

/// Largest `max_sequence_number` among the files.
pub fn max_seq_exec(metas: &Vec<FileMeta>) -> (r: i64)
    ensures
        r as int == max_seq_of(metas@),
{
    let mut r: i64 = i64::MIN;
    let mut i: usize = 0;
    while i < metas.len()
        invariant
            0 <= i <= metas@.len(),
            r as int == max_seq_of(metas@.take(i as int)),
        decreases metas@.len() - i,
    {
        proof {
            assert(metas@.take(i + 1).drop_last() =~= metas@.take(i as int));
        }
        if metas[i].max_sequence_number >= r {
            r = metas[i].max_sequence_number;
        }
        i = i + 1;
    }
    proof {
        assert(metas@.take(metas@.len() as int) =~= metas@);
    }
    r
}

/// One compaction operation: merge and deduplicate the rows of the input
/// files, split the result when the total input size asks for it, and swap the
/// outputs for the inputs in the catalog.
///
/// The outputs' encoded sizes are the model's estimate: the total input size,
/// apportioned by the split percentage when the output is split.
pub fn compact_parquet_files(
    inputs: Vec<FileRows>,
    partition_id: u64,
    target_level: CompactionLevel,
    max_desired_file_size_bytes: u64,
    percentage_max_file_size: u64,
    split_percentage: u64,
    created_at: i64,
    catalog: CatalogState,
) -> (r: (CatalogState, Vec<FileRows>))
    requires
        catalog.wf(),
        catalog.next_id <= u64::MAX - 2,
        split_percentage <= 100,
    ensures
        compact_post(
            inputs@,
            partition_id,
            target_level,
            max_desired_file_size_bytes,
            percentage_max_file_size,
            split_percentage,
            catalog,
            r.0,
            r.1@,
        ),
        r.0.next_id <= catalog.next_id + 2,
{
    let ghost ginputs = inputs@;
    let metas = extract_metas(&inputs);
    let ids = extract_ids(&inputs);
    let total_size = total_file_size_exec(&metas);
    let max_seq = max_seq_exec(&metas);
    let w = crate::rows::merge_dedup(inputs);
    let ghost gw = winners(all_entries(ginputs, ginputs.len() as int));
    let catalog = catalog.flag_many(&ids);
    let mut outputs: Vec<FileRows> = Vec::new();
    if w.len() == 0 {
        proof {
            assert(flag_all(catalog.files@, ids_of(ginputs)) + metas_of(outputs@) =~= catalog.files@
                + metas_of(outputs@));
            assert(catalog.files@ + metas_of(outputs@) =~= catalog.files@);
        }
        return (catalog, outputs);
    }
    let (mn, mx) = rows_time_bounds(&w);
    proof {
        assert(rows_view(w@).len() == w@.len());
        assert forall|i: int| 0 <= i < gw.len() implies mn as int <= #[trigger] gw[i].1 <= mx as int
            by {
            assert(gw[i] == crate::rows::row_view(w@[i]));
        }
        let wi = choose|i: int| 0 <= i < w@.len() && #[trigger] w@[i].time == mn;
        assert(gw[wi].1 == mn as int);
        let xi = choose|i: int| 0 <= i < w@.len() && #[trigger] w@[i].time == mx;
        assert(gw[xi].1 == mx as int);
        assert(view_time_bounds(gw, mn as int, mx as int));
    }
    let t = split_time(mn, mx, split_percentage);
    if needs_split(total_size, max_desired_file_size_bytes, percentage_max_file_size) && t < mx {
        proof {
            assert((total_size as int) * (split_percentage as int) / 100 <= total_size as int)
                by (nonlinear_arith)
                requires
                    0 <= total_size,
                    0 <= split_percentage <= 100,
            ;
            assert(0 <= (total_size as int) * (split_percentage as int) / 100) by (nonlinear_arith)
                requires
                    0 <= total_size,
                    0 <= split_percentage,
            ;
            assert((total_size as int) * (split_percentage as int) <= u128::MAX)
                by (nonlinear_arith)
                requires
                    0 <= total_size <= u64::MAX,
                    0 <= split_percentage <= 100,
            ;
        }
        let first_size = ((total_size as u128) * (split_percentage as u128) / 100) as u64;
        let second_size = total_size - first_size;
        let ghost gwrows = w@;
        let (lo, hi) = split_rows(w, t);
        proof {
            lemma_views_split_commute(gwrows, t as int);
            let wi = choose|i: int| 0 <= i < gwrows.len() && #[trigger] gwrows[i].time == mn;
            lemma_at_most_nonempty(gwrows, t as int, wi);
            let xi = choose|i: int| 0 <= i < gwrows.len() && #[trigger] gwrows[i].time == mx;
            lemma_above_nonempty(gwrows, t as int, xi);
        }
        let ghost gcat1 = catalog.files@;
        let (b0_min, b0_max) = rows_time_bounds(&lo);
        let p0 = FileParams {
            partition_id,
            object_store_id: fresh_object_store_id(),
            min_time: b0_min,
            max_time: b0_max,
            max_sequence_number: max_seq,
            row_count: lo.len() as u64,
            file_size_bytes: first_size,
            compaction_level: target_level,
            created_at,
        };
        let (catalog, m0) = catalog.create(p0);
        let (b1_min, b1_max) = rows_time_bounds(&hi);
        let p1 = FileParams {
            partition_id,
            object_store_id: fresh_object_store_id(),
            min_time: b1_min,
            max_time: b1_max,
            max_sequence_number: max_seq,
            row_count: hi.len() as u64,
            file_size_bytes: second_size,
            compaction_level: target_level,
            created_at,
        };
        let (catalog, m1) = catalog.create(p1);
        outputs.push(FileRows { meta: m0, rows: lo });
        outputs.push(FileRows { meta: m1, rows: hi });
        proof {
            assert(metas_of(outputs@) =~= Seq::<FileMeta>::empty().push(m0).push(m1));
            assert(catalog.files@ =~= gcat1 + metas_of(outputs@));
        }
        (catalog, outputs)
    } else {
        let ghost gcat1 = catalog.files@;
        let p = FileParams {
            partition_id,
            object_store_id: fresh_object_store_id(),
            min_time: mn,
            max_time: mx,
            max_sequence_number: max_seq,
            row_count: w.len() as u64,
            file_size_bytes: total_size,
            compaction_level: target_level,
            created_at,
        };
        let (catalog, m) = catalog.create(p);
        outputs.push(FileRows { meta: m, rows: w });
        proof {
            assert(metas_of(outputs@) =~= Seq::<FileMeta>::empty().push(m));
            assert(catalog.files@ =~= gcat1 + metas_of(outputs@));
        }
        (catalog, outputs)
    }
}

/// One full-compaction operation over one group of L1 files: merge, dedup,
/// and write a single L2 output, with no split.
pub open spec fn compact_final_post(
    inputs: Seq<FileRows>,
    partition_id: u64,
    cat_old: CatalogState,
    cat_new: CatalogState,
    outputs: Seq<FileRows>,
) -> bool {
    let w = winners(all_entries(inputs, inputs.len() as int));
    &&& cat_new.wf()
    &&& cat_new.next_id >= cat_old.next_id
    &&& cat_new.files@ == flag_all(cat_old.files@, ids_of(inputs)) + metas_of(outputs)
    &&& forall|k: int|
        0 <= k < outputs.len() ==> output_wf(
            #[trigger] outputs[k],
            CompactionLevel::Final,
            partition_id,
        )
    &&& forall|k: int|
        0 <= k < outputs.len() ==> (#[trigger] outputs[k]).meta.max_sequence_number as int
            == max_seq_of(metas_of(inputs))
    &&& forall|k: int|
        0 <= k < outputs.len() ==> (#[trigger] outputs[k]).meta.id >= cat_old.next_id
    &&& outputs.len() == (if w.len() == 0 { 0int } else { 1int })
    &&& (w.len() > 0 ==> rows_view(outputs[0].rows@) == w)
}

/// Merge and deduplicate one group of files into a single output at the final
/// level, and swap it for the group in the catalog. The output's encoded size
/// is the model's estimate: the total input size.
pub fn compact_final_no_splits(
    inputs: Vec<FileRows>,
    partition_id: u64,
    created_at: i64,
    catalog: CatalogState,
) -> (r: (CatalogState, Vec<FileRows>))
    requires
        catalog.wf(),
        catalog.next_id < u64::MAX,
    ensures
        compact_final_post(inputs@, partition_id, catalog, r.0, r.1@),
        r.0.next_id >= catalog.next_id,
        r.0.next_id <= catalog.next_id + 1,
{
    let ghost ginputs = inputs@;
    let metas = extract_metas(&inputs);
    let ids = extract_ids(&inputs);
    let total_size = total_file_size_exec(&metas);
    let max_seq = max_seq_exec(&metas);
    let w = crate::rows::merge_dedup(inputs);
    let catalog = catalog.flag_many(&ids);
    let mut outputs: Vec<FileRows> = Vec::new();
    if w.len() == 0 {
        proof {
            assert(flag_all(catalog.files@, ids_of(ginputs)) + metas_of(outputs@)
                =~= catalog.files@);
        }
        return (catalog, outputs);
    }
    let (mn, mx) = rows_time_bounds(&w);
    let ghost gcat1 = catalog.files@;
    let p = FileParams {
        partition_id,
        object_store_id: fresh_object_store_id(),
        min_time: mn,
        max_time: mx,
        max_sequence_number: max_seq,
        row_count: w.len() as u64,
        file_size_bytes: total_size,
        compaction_level: CompactionLevel::Final,
        created_at,
    };
    let (catalog, m) = catalog.create(p);
    outputs.push(FileRows { meta: m, rows: w });
    proof {
        assert(metas_of(outputs@) =~= Seq::<FileMeta>::empty().push(m));
        assert(catalog.files@ =~= gcat1 + metas_of(outputs@));
    }
    (catalog, outputs)
}

/// How one compaction pass may move the catalog: existing rows keep their
/// identity and statistics, may gain the deletion flag, and may only move to a
/// higher compaction level; appended rows are live outputs at the pass's
/// target level.
pub open spec fn file_preserved_up(old_f: FileMeta, new_f: FileMeta) -> bool {
    &&& new_f.id == old_f.id
    &&& new_f.partition_id == old_f.partition_id
    &&& new_f.object_store_id == old_f.object_store_id
    &&& new_f.min_time == old_f.min_time
    &&& new_f.max_time == old_f.max_time
    &&& new_f.max_sequence_number == old_f.max_sequence_number
    &&& new_f.row_count == old_f.row_count
    &&& new_f.file_size_bytes == old_f.file_size_bytes
    &&& new_f.created_at == old_f.created_at
    &&& (old_f.to_delete ==> new_f.to_delete)
    &&& new_f.compaction_level.spec_rank() >= old_f.compaction_level.spec_rank()
}

/// Level monotonicity of one pass: rows present before are preserved up, and
/// every appended row is a live output at the target level.
pub open spec fn catalog_progress(
    old_files: Seq<FileMeta>,
    new_files: Seq<FileMeta>,
    target: CompactionLevel,
) -> bool {
    &&& new_files.len() >= old_files.len()
    &&& forall|i: int|
        0 <= i < old_files.len() ==> file_preserved_up(old_files[i], #[trigger] new_files[i])
    &&& forall|i: int|
        old_files.len() <= i < new_files.len() ==> (#[trigger] new_files[i]).compaction_level
            == target && !new_files[i].to_delete
}

/// Copy a file with its rows; the copy carries the same metadata and the same
/// row values.
pub fn clone_file_rows(f: &FileRows) -> (c: FileRows)
    ensures
        c.meta == f.meta,
        rows_view(c.rows@) == rows_view(f.rows@),
{
    let mut rows: Vec<Row> = Vec::new();
    let mut i: usize = 0;
    while i < f.rows.len()
        invariant
            0 <= i <= f.rows@.len(),
            rows_view(rows@) =~= rows_view(f.rows@.take(i as int)),
        decreases f.rows@.len() - i,
    {
        let c = crate::rows::clone_row(&f.rows[i]);
        proof {
            assert(rows_view(rows@.push(c)) =~= rows_view(rows@).push(crate::rows::row_view(c)));
            assert(rows_view(f.rows@.take(i + 1)) =~= rows_view(f.rows@.take(i as int)).push(
                crate::rows::row_view(f.rows@[i as int]),
            ));
        }
        rows.push(c);
        i = i + 1;
    }
    proof {
        assert(f.rows@.take(f.rows@.len() as int) =~= f.rows@);
    }
    FileRows { meta: f.meta, rows }
}

/// Every wanted file's metadata occurs among the handed files.
pub open spec fn selection_covered(files: Seq<FileRows>, wanted: Seq<FileMeta>) -> bool {
    forall|m: int|
        0 <= m < wanted.len() ==> exists|j: int|
            0 <= j < files.len() && (#[trigger] files[j]).meta == #[trigger] wanted[m]
}

/// Pick, for each wanted file, the first handed file with its metadata,
/// copying its rows. A full-length result matches the wanted list pointwise;
/// a shorter one means some wanted file was not handed in.
pub fn select_files(files: &Vec<FileRows>, wanted: &Vec<FileMeta>) -> (r: Vec<FileRows>)
    ensures
        r@.len() <= wanted@.len(),
        forall|k: int|
            0 <= k < r@.len() ==> exists|j: int|
                0 <= j < files@.len() && (#[trigger] r@[k]).meta == files@[j].meta && rows_view(
                    r@[k].rows@,
                ) == rows_view(files@[j].rows@),
        r@.len() == wanted@.len() ==> forall|k: int|
            0 <= k < r@.len() ==> (#[trigger] r@[k]).meta == wanted@[k],
        selection_covered(files@, wanted@) ==> r@.len() == wanted@.len(),
{
    let mut r: Vec<FileRows> = Vec::new();
    let mut k: usize = 0;
    while k < wanted.len()
        invariant
            0 <= k <= wanted@.len(),
            r@.len() <= k,
            forall|m: int|
                0 <= m < r@.len() ==> exists|j: int|
                    0 <= j < files@.len() && (#[trigger] r@[m]).meta == files@[j].meta && rows_view(
                        r@[m].rows@,
                    ) == rows_view(files@[j].rows@),
            r@.len() == k ==> forall|m: int|
                0 <= m < r@.len() ==> (#[trigger] r@[m]).meta == wanted@[m],
            selection_covered(files@, wanted@.take(k as int)) ==> r@.len() == k,
        decreases wanted@.len() - k,
    {
        let w = wanted[k];
        let mut j: usize = 0;
        let mut found = false;
        while j < files.len() && !found
            invariant
                0 <= j <= files@.len(),
                w == wanted@[k as int],
                !found ==> forall|m: int| 0 <= m < j ==> (#[trigger] files@[m]).meta != w,
                found ==> j > 0 && 0 <= j - 1 < files@.len() && files@[j - 1].meta == w,
            decreases files@.len() - j + if found {
                0int
            } else {
                1int
            },
        {
            if files[j].meta == w {
                found = true;
            }
            j = j + 1;
        }
        proof {
            assert(wanted@.take(k + 1)[k as int] == wanted@[k as int]);
            assert forall|m: int|
                0 <= m < k implies wanted@.take(k + 1)[m] == #[trigger] wanted@.take(
                k as int,
            )[m] by {}
        }
        if found {
            let c = clone_file_rows(&files[j - 1]);
            r.push(c);
        } else {
            proof {
                assert(!selection_covered(files@, wanted@.take(k + 1))) by {
                    if selection_covered(files@, wanted@.take(k + 1)) {
                        assert(exists|j: int|
                            0 <= j < files@.len() && (#[trigger] files@[j]).meta == wanted@.take(
                                k + 1,
                            )[k as int]);
                    }
                }
            }
        }
        k = k + 1;
    }
    proof {
        assert(wanted@.take(wanted@.len() as int) =~= wanted@);
    }
    r
}

/// Keep only the handed files whose id is not among `ids` (the files a swap
/// left live), in order.
pub open spec fn without_ids(files: Seq<FileRows>, ids: Seq<u64>) -> Seq<FileRows>
    decreases files.len(),
{
    if files.len() == 0 {
        Seq::empty()
    } else {
        let rest = without_ids(files.drop_last(), ids);
        if contains_id(ids, files.last().meta.id) {
            rest
        } else {
            rest.push(files.last())
        }
    }
}

/// Drop the files whose id is listed.
pub fn remove_files_by_ids(files: Vec<FileRows>, ids: &Vec<u64>) -> (r: Vec<FileRows>)
    ensures
        r@ == without_ids(files@, ids@),
{
    let ghost gfiles = files@;
    let mut files = files;
    let mut out: Vec<FileRows> = Vec::new();
    let mut i: usize = 0;
    let n = files.len();
    proof {
        assert(n == files@.len());
    }
    while files.len() > 0
        invariant
            0 <= i <= gfiles.len(),
            i + files@.len() <= usize::MAX,
            files@ == gfiles.skip(i as int),
            out@ == without_ids(gfiles.take(i as int), ids@),
        decreases files@.len(),
    {
        let f = files.remove(0);
        proof {
            assert(gfiles.skip(i as int).remove(0) =~= gfiles.skip(i + 1));
            assert(f == gfiles[i as int]);
            assert(gfiles.take(i + 1).drop_last() =~= gfiles.take(i as int));
            assert(gfiles.take(i + 1).last() == f);
        }
        if !crate::catalog::contains_id_exec_pub(ids, f.meta.id) {
            out.push(f);
        }
        i = i + 1;
    }
    proof {
        assert(gfiles.skip(i as int).len() == 0);
        assert(i == gfiles.len());
        assert(gfiles.take(gfiles.len() as int) =~= gfiles);
    }
    out
}

/// Elements of `without_ids` come from the handed files.
proof fn lemma_without_ids_sub(files: Seq<FileRows>, ids: Seq<u64>, k: int)
    requires
        0 <= k < without_ids(files, ids).len(),
    ensures
        exists|j: int| 0 <= j < files.len() && files[j] == without_ids(files, ids)[k],
    decreases files.len(),
{
    if files.len() > 0 {
        let rest = without_ids(files.drop_last(), ids);
        if contains_id(ids, files.last().meta.id) {
            lemma_without_ids_sub(files.drop_last(), ids, k);
        } else {
            if k < rest.len() {
                lemma_without_ids_sub(files.drop_last(), ids, k);
            } else {
                assert(files[files.len() - 1] == without_ids(files, ids)[k]);
            }
        }
    }
}

/// Two file lists carry the same files: same metadata and the same row values,
/// position by position.
pub open spec fn files_view_match(a: Seq<FileRows>, b: Seq<FileRows>) -> bool {
    &&& a.len() == b.len()
    &&& forall|i: int|
        0 <= i < a.len() ==> (#[trigger] a[i]).meta == b[i].meta && rows_view(a[i].rows@)
            == rows_view(b[i].rows@)
}

/// May the row with this id be promoted without demotion? Every catalog row
/// with the id sits at or below L1.
pub open spec fn promotable_to_l1(cat: CatalogState, id: u64) -> bool {
    forall|i: int|
        0 <= i < cat.files@.len() ==> ((#[trigger] cat.files@[i]).id == id
            ==> cat.files@[i].compaction_level.spec_rank() <= 1)
}

/// What one remaining-L0 pass did, exactly: for some lookup grouping of the
/// handed files and the threshold-bounded cold selection over it, either a
/// lone L0 file was promoted without a rewrite, or one compaction operation
/// ran on copies of the selected rows, or the pass left everything unchanged —
/// the latter only when the selection was empty, the handed rows did not cover
/// it, or the promotion would have demoted a catalog row.
pub open spec fn cold_pass_outcome(
    files: Seq<FileRows>,
    partition_id: u64,
    cold_input_size_threshold_bytes: u64,
    cold_input_file_count_threshold: u64,
    max_desired_file_size_bytes: u64,
    percentage_max_file_size: u64,
    split_percentage: u64,
    cat_old: CatalogState,
    cat_new: CatalogState,
    outputs: Seq<FileRows>,
    live: Seq<FileRows>,
) -> bool {
    exists|l0: Seq<FileMeta>, l1: Seq<FileMeta>, k: int|
        #![trigger crate::filter::cold_selection(l0, l1, k)]
        {
            &&& l0.to_multiset() == crate::files::live_of(
                metas_of(files),
                CompactionLevel::Initial,
            )
            &&& l1.to_multiset() == crate::files::live_of(
                metas_of(files),
                CompactionLevel::FileNonOverlapped,
            )
            &&& crate::files::lookup_sorted(l0)
            &&& crate::files::lookup_sorted(l1)
            &&& 0 <= k <= l0.len()
            &&& forall|j: int|
                0 <= j < k ==> !crate::filter::cold_crossed(
                    l0,
                    l1,
                    j,
                    cold_input_size_threshold_bytes,
                    cold_input_file_count_threshold,
                )
            &&& (k < l0.len() ==> crate::filter::cold_crossed(
                l0,
                l1,
                k,
                cold_input_size_threshold_bytes,
                cold_input_file_count_threshold,
            ))
            &&& {
                let selection = crate::filter::cold_selection(l0, l1, k);
                if selection.len() == 0 || !selection_covered(files, selection) {
                    &&& cat_new.files@ == cat_old.files@
                    &&& cat_new.next_id == cat_old.next_id
                    &&& outputs.len() == 0
                    &&& files_view_match(live, files)
                } else if selection.len() == 1 && selection[0].compaction_level
                    == CompactionLevel::Initial {
                    if promotable_to_l1(cat_old, selection[0].id) {
                        &&& cat_new.files@ == promote_in(
                            cat_old.files@,
                            seq![selection[0].id],
                            CompactionLevel::FileNonOverlapped,
                        )
                        &&& cat_new.next_id == cat_old.next_id
                        &&& outputs.len() == 0
                        &&& live.len() == files.len()
                        &&& forall|i: int|
                            0 <= i < live.len() ==> (#[trigger] live[i]).meta
                                == crate::catalog::promote_one(
                                files[i].meta,
                                seq![selection[0].id],
                                CompactionLevel::FileNonOverlapped,
                            ) && rows_view(live[i].rows@) == rows_view(files[i].rows@)
                    } else {
                        &&& cat_new.files@ == cat_old.files@
                        &&& cat_new.next_id == cat_old.next_id
                        &&& outputs.len() == 0
                        &&& files_view_match(live, files)
                    }
                } else {
                    exists|sel: Seq<FileRows>, base: Seq<FileRows>, tail: Seq<FileRows>|
                        #![trigger metas_of(sel), without_ids(base, ids_of(sel)), metas_of(tail)]
                        {
                            &&& metas_of(sel) == selection
                            &&& forall|m: int|
                                0 <= m < sel.len() ==> exists|j: int|
                                    0 <= j < files.len() && (#[trigger] sel[m]).meta
                                        == files[j].meta && rows_view(sel[m].rows@) == rows_view(
                                        files[j].rows@,
                                    )
                            &&& compact_post(
                                sel,
                                partition_id,
                                CompactionLevel::FileNonOverlapped,
                                max_desired_file_size_bytes,
                                percentage_max_file_size,
                                split_percentage,
                                cat_old,
                                cat_new,
                                outputs,
                            )
                            &&& files_view_match(base, files)
                            &&& files_view_match(tail, outputs)
                            &&& live == without_ids(base, ids_of(sel)) + tail
                        }
                }
            }
        }
}

/// Rewrite the remaining L0 files of a cold partition to L1: select them with
/// the cold filter, and either promote a lone non-overlapping L0 file without
/// rewriting bytes, or run one compaction operation over the selection.
///
/// Returns the catalog after the pass, the produced outputs, and the live
/// files of the partition after the pass, rows included, for a following pass.
pub fn compact_remaining_level_0_files(
    files: &Vec<FileRows>,
    partition_id: u64,
    cold_input_size_threshold_bytes: u64,
    cold_input_file_count_threshold: u64,
    max_desired_file_size_bytes: u64,
    percentage_max_file_size: u64,
    split_percentage: u64,
    created_at: i64,
    catalog: CatalogState,
) -> (r: (CatalogState, Vec<FileRows>, Vec<FileRows>))
    requires
        catalog.wf(),
        catalog.next_id <= u64::MAX - 2,
        split_percentage <= 100,
        forall|i: int| 0 <= i < files@.len() ==> (#[trigger] files@[i]).meta.id < catalog.next_id,
    ensures
        r.0.wf(),
        r.0.next_id >= catalog.next_id,
        catalog_progress(catalog.files@, r.0.files@, CompactionLevel::FileNonOverlapped),
        forall|k: int|
            0 <= k < r.1@.len() ==> output_wf(
                #[trigger] r.1@[k],
                CompactionLevel::FileNonOverlapped,
                partition_id,
            ),
        forall|i: int| 0 <= i < r.2@.len() ==> (#[trigger] r.2@[i]).meta.id < r.0.next_id,
        r.2@.len() <= files@.len() + 2,
        r.0.next_id <= catalog.next_id + 2,
        cold_pass_outcome(
            files@,
            partition_id,
            cold_input_size_threshold_bytes,
            cold_input_file_count_threshold,
            max_desired_file_size_bytes,
            percentage_max_file_size,
            split_percentage,
            catalog,
            r.0,
            r.1@,
            r.2@,
        ),
{
    let ghost gcat = catalog.files@;
    let metas = extract_metas(files);
    let lookup = crate::files::files_for_compaction(&metas);
    let to_compact = crate::filter::filter_cold_parquet_files(
        &lookup,
        cold_input_size_threshold_bytes,
        cold_input_file_count_threshold,
    );
    let ghost gl0 = lookup.level_0@;
    let ghost gl1 = lookup.level_1@;
    let ghost gk = choose|k: int|
        {
            &&& 0 <= k <= gl0.len()
            &&& to_compact@ == crate::filter::cold_selection(gl0, gl1, k)
            &&& forall|j: int|
                0 <= j < k ==> !crate::filter::cold_crossed(
                    gl0,
                    gl1,
                    j,
                    cold_input_size_threshold_bytes,
                    cold_input_file_count_threshold,
                )
            &&& (k < gl0.len() ==> crate::filter::cold_crossed(
                gl0,
                gl1,
                k,
                cold_input_size_threshold_bytes,
                cold_input_file_count_threshold,
            ))
        };
    let sel = select_files(files, &to_compact);
    if sel.len() != to_compact.len() || sel.len() == 0 {
        // Nothing selected (or the handed rows do not cover the selection):
        // leave the partition as it is.
        proof {
            let selection = crate::filter::cold_selection(gl0, gl1, gk);
            if sel@.len() != to_compact@.len() {
                assert(!selection_covered(files@, selection));
            }
            assert(selection.len() == 0 || !selection_covered(files@, selection));
        }
        let live = clone_all(files);
        proof {
            assert(files_view_match(live@, files@));
        }
        return (catalog, Vec::new(), live);
    }
    proof {
        assert(metas_of(sel@) =~= to_compact@);
        let selection = crate::filter::cold_selection(gl0, gl1, gk);
        assert(selection_covered(files@, selection)) by {
            assert forall|m: int| 0 <= m < selection.len() implies exists|j: int|
                0 <= j < files@.len() && (#[trigger] files@[j]).meta == #[trigger] selection[m] by {
                assert(sel@[m].meta == selection[m]);
                let j = choose|j: int|
                    0 <= j < files@.len() && (#[trigger] sel@[m]).meta == files@[j].meta
                        && rows_view(sel@[m].rows@) == rows_view(files@[j].rows@);
                assert(files@[j].meta == selection[m]);
            }
        }
    }
    if sel.len() == 1 && sel[0].meta.compaction_level.rank() == 0 {
        // A lone L0 file: promote it to L1 without rewriting bytes.
        let id = sel[0].meta.id;
        let mut ids: Vec<u64> = Vec::new();
        ids.push(id);
        // The promotion must not demote a catalog row; check the row's level.
        let mut j: usize = 0;
        let mut ok = true;
        while j < catalog.files.len()
            invariant
                0 <= j <= catalog.files@.len(),
                ok == forall|m: int|
                    0 <= m < j ==> ((#[trigger] catalog.files@[m]).id == id
                        ==> catalog.files@[m].compaction_level.spec_rank() <= 1),
            decreases catalog.files@.len() - j,
        {
            if catalog.files[j].id == id && catalog.files[j].compaction_level.rank() > 1 {
                ok = false;
            }
            j = j + 1;
        }
        proof {
            let selection = crate::filter::cold_selection(gl0, gl1, gk);
            assert(selection[0] == sel@[0].meta);
            assert(selection[0].compaction_level == CompactionLevel::Initial);
            assert(ok == promotable_to_l1(catalog, id));
        }
        if !ok {
            let live = clone_all(files);
            proof {
                assert(files_view_match(live@, files@));
            }
            return (catalog, Vec::new(), live);
        }
        let cat2 = catalog.update_compaction_level(&ids, CompactionLevel::FileNonOverlapped);
        proof {
            assert forall|i: int| 0 <= i < gcat.len() implies file_preserved_up(
                gcat[i],
                #[trigger] cat2.files@[i],
            ) by {
                assert(cat2.files@[i] == crate::catalog::promote_one(
                    gcat[i],
                    ids@,
                    CompactionLevel::FileNonOverlapped,
                ));
            }
            assert(ids@ =~= seq![id]);
            let selection = crate::filter::cold_selection(gl0, gl1, gk);
            assert(cat2.files@ == promote_in(
                gcat,
                seq![selection[0].id],
                CompactionLevel::FileNonOverlapped,
            ));
        }
        let mut live = clone_all(files);
        let ghost gclones = live@;
        let live2 = promote_in_files(live, &ids, CompactionLevel::FileNonOverlapped);
        proof {
            let selection = crate::filter::cold_selection(gl0, gl1, gk);
            assert forall|i: int|
                0 <= i < live2@.len() implies (#[trigger] live2@[i]).meta
                == crate::catalog::promote_one(
                files@[i].meta,
                seq![selection[0].id],
                CompactionLevel::FileNonOverlapped,
            ) && rows_view(live2@[i].rows@) == rows_view(files@[i].rows@) by {
                assert(live2@[i].meta == crate::catalog::promote_one(
                    gclones[i].meta,
                    ids@,
                    CompactionLevel::FileNonOverlapped,
                ));
                assert(gclones[i].meta == files@[i].meta);
                assert(ids@ == seq![selection[0].id]);
                assert(rows_view(live2@[i].rows@) == rows_view(gclones[i].rows@));
                assert(rows_view(gclones[i].rows@) == rows_view(files@[i].rows@));
            }
        }
        return (cat2, Vec::new(), live2);
    }
    proof {
        let selection = crate::filter::cold_selection(gl0, gl1, gk);
        assert(!(selection.len() == 1 && selection[0].compaction_level
            == CompactionLevel::Initial)) by {
            if selection.len() == 1 && selection[0].compaction_level == CompactionLevel::Initial {
                assert(sel@[0].meta == selection[0]);
                assert(sel@[0].meta.compaction_level.spec_rank() == 0);
            }
        }
    }
    let ghost gsel = sel@;
    let sel_ids = extract_ids(&sel);
    let (cat2, outputs) = compact_parquet_files(
        sel,
        partition_id,
        CompactionLevel::FileNonOverlapped,
        max_desired_file_size_bytes,
        percentage_max_file_size,
        split_percentage,
        created_at,
        catalog,
    );
    proof {
        assert forall|i: int| 0 <= i < gcat.len() implies file_preserved_up(
            gcat[i],
            #[trigger] cat2.files@[i],
        ) by {
            assert(cat2.files@[i] == flag_all(gcat, ids_of(gsel))[i]);
        }
        assert forall|i: int|
            gcat.len() <= i < cat2.files@.len() implies (#[trigger] cat2.files@[i]).compaction_level
            == CompactionLevel::FileNonOverlapped && !cat2.files@[i].to_delete by {
            assert(cat2.files@[i] == metas_of(outputs@)[i - gcat.len()]);
            assert(output_wf(
                outputs@[i - gcat.len()],
                CompactionLevel::FileNonOverlapped,
                partition_id,
            ));
        }
    }
    let live0 = clone_all(files);
    let ghost glive0 = live0@;
    let live1 = remove_files_by_ids(live0, &sel_ids);
    let mut live = live1;
    let mut oi: usize = 0;
    proof {
        assert forall|i: int| 0 <= i < live@.len() implies (#[trigger] live@[i]).meta.id
            < cat2.next_id by {
            lemma_without_ids_sub(glive0, sel_ids@, i);
            let j = choose|j: int| 0 <= j < glive0.len() && glive0[j] == live@[i];
            assert(glive0[j].meta == files@[j].meta);
        }
        assert forall|k: int| 0 <= k < outputs@.len() implies (#[trigger] outputs@[k]).meta.id
            < cat2.next_id by {
            assert(cat2.files@[gcat.len() + k] == metas_of(outputs@)[k]);
        }
    }
    let ghost gwo = without_ids(glive0, sel_ids@);
    proof {
        lemma_without_ids_len(glive0, sel_ids@);
    }
    while oi < outputs.len()
        invariant
            0 <= oi <= outputs@.len(),
            outputs@.len() <= 2,
            gwo.len() <= files@.len(),
            live@.len() == gwo.len() + oi,
            forall|m: int| 0 <= m < gwo.len() ==> live@[m] == gwo[m],
            forall|m: int|
                0 <= m < oi ==> (#[trigger] live@[gwo.len() + m]).meta == outputs@[m].meta
                    && rows_view(live@[gwo.len() + m].rows@) == rows_view(outputs@[m].rows@),
            forall|k: int|
                0 <= k < outputs@.len() ==> output_wf(
                    #[trigger] outputs@[k],
                    CompactionLevel::FileNonOverlapped,
                    partition_id,
                ) && outputs@[k].meta.id < cat2.next_id,
            forall|i: int| 0 <= i < live@.len() ==> (#[trigger] live@[i]).meta.id < cat2.next_id,
        decreases outputs@.len() - oi,
    {
        let c = clone_file_rows(&outputs[oi]);
        live.push(c);
        oi = oi + 1;
    }
    proof {
        let tail = live@.skip(gwo.len() as int);
        assert(live@ =~= gwo + tail);
        assert(files_view_match(tail, outputs@)) by {
            assert forall|m: int| 0 <= m < tail.len() implies (#[trigger] tail[m]).meta
                == outputs@[m].meta && rows_view(tail[m].rows@) == rows_view(outputs@[m].rows@) by {
                assert(tail[m] == live@[gwo.len() + m]);
            }
        }
        assert(files_view_match(glive0, files@));
        assert(sel_ids@ == ids_of(gsel));
        assert(without_ids(glive0, ids_of(gsel)) == gwo);
        assert(metas_of(tail).len() == outputs@.len());
        assert(live@ == without_ids(glive0, ids_of(gsel)) + tail);
    }
    (cat2, outputs, live)
}

/// Copy a file list with its rows.
pub fn clone_all(files: &Vec<FileRows>) -> (r: Vec<FileRows>)
    ensures
        r@.len() == files@.len(),
        forall|i: int|
            0 <= i < files@.len() ==> (#[trigger] r@[i]).meta == files@[i].meta && rows_view(
                r@[i].rows@,
            ) == rows_view(files@[i].rows@),
{
    let mut r: Vec<FileRows> = Vec::new();
    let mut i: usize = 0;
    while i < files.len()
        invariant
            0 <= i <= files@.len(),
            r@.len() == i,
            forall|j: int|
                0 <= j < i ==> (#[trigger] r@[j]).meta == files@[j].meta && rows_view(
                    r@[j].rows@,
                ) == rows_view(files@[j].rows@),
        decreases files@.len() - i,
    {
        let c = clone_file_rows(&files[i]);
        r.push(c);
        i = i + 1;
    }
    r
}

/// Set the level of the listed files in a handed file list, mirroring a
/// catalog promotion.
pub fn promote_in_files(files: Vec<FileRows>, ids: &Vec<u64>, level: CompactionLevel) -> (r: Vec<
    FileRows,
>)
    ensures
        r@.len() == files@.len(),
        forall|i: int|
            0 <= i < r@.len() ==> (#[trigger] r@[i]).meta == crate::catalog::promote_one(
                files@[i].meta,
                ids@,
                level,
            ) && rows_view(r@[i].rows@) == rows_view(files@[i].rows@),
{
    let ghost gfiles = files@;
    let mut files = files;
    let mut out: Vec<FileRows> = Vec::new();
    let mut i: usize = 0;
    let n = files.len();
    proof {
        assert(n == files@.len());
    }
    while files.len() > 0
        invariant
            0 <= i <= gfiles.len(),
            i + files@.len() <= usize::MAX,
            files@ == gfiles.skip(i as int),
            out@.len() == i,
            forall|j: int|
                0 <= j < i ==> (#[trigger] out@[j]).meta == crate::catalog::promote_one(
                    gfiles[j].meta,
                    ids@,
                    level,
                ) && rows_view(out@[j].rows@) == rows_view(gfiles[j].rows@),
        decreases files@.len(),
    {
        let mut f = files.remove(0);
        proof {
            assert(gfiles.skip(i as int).remove(0) =~= gfiles.skip(i + 1));
            assert(f == gfiles[i as int]);
        }
        if crate::catalog::contains_id_exec_pub(ids, f.meta.id) {
            f = FileRows {
                meta: FileMeta { compaction_level: level, ..f.meta },
                rows: f.rows,
            };
        }
        out.push(f);
        i = i + 1;
    }
    proof {
        assert(gfiles.skip(i as int).len() == 0);
        assert(i == gfiles.len());
    }
    out
}

/// Groups of nonempty lists concatenate to at least as many elements.
proof fn lemma_flatten_groups_len(groups: Seq<Seq<FileMeta>>)
    requires
        forall|i: int| 0 <= i < groups.len() ==> (#[trigger] groups[i]).len() > 0,
    ensures
        crate::combine::flatten_groups(groups).len() >= groups.len(),
    decreases groups.len(),
{
    if groups.len() > 0 {
        lemma_flatten_groups_len(groups.drop_last());
    }
}

/// A level holds at most as many live files as the catalog holds rows.
proof fn lemma_live_of_len(files: Seq<FileMeta>, level: CompactionLevel)
    ensures
        crate::files::live_of(files, level).len() <= files.len(),
    decreases files.len(),
{
    if files.len() > 0 {
        lemma_live_of_len(files.drop_last(), level);
    }
}

/// Full cold compaction: pack the partition's L1 files into groups by size and
/// rewrite each group as one L2 file; a group of one file is promoted without
/// a rewrite.
/// What full compaction does with one group: a group the handed rows do not
/// cover (or an empty one) is left alone, a group of one file is promoted to
/// the final level without a rewrite, and a larger group is rewritten by one
/// final-level compaction operation on copies of its rows.
pub open spec fn full_group_step(
    files: Seq<FileRows>,
    group: Seq<FileMeta>,
    partition_id: u64,
    cat_old: CatalogState,
    cat_new: CatalogState,
    outs: Seq<FileRows>,
) -> bool {
    if group.len() == 0 || !selection_covered(files, group) {
        cat_new.files@ == cat_old.files@ && cat_new.next_id == cat_old.next_id && outs.len() == 0
    } else if group.len() == 1 {
        &&& cat_new.files@ == promote_in(
            cat_old.files@,
            seq![group[0].id],
            CompactionLevel::Final,
        )
        &&& cat_new.next_id == cat_old.next_id
        &&& outs.len() == 0
    } else {
        exists|sel: Seq<FileRows>|
            #![trigger metas_of(sel)]
            {
                &&& metas_of(sel) == group
                &&& forall|m: int|
                    0 <= m < sel.len() ==> exists|j: int|
                        0 <= j < files.len() && (#[trigger] sel[m]).meta == files[j].meta
                            && rows_view(sel[m].rows@) == rows_view(files[j].rows@)
                &&& compact_final_post(sel, partition_id, cat_old, cat_new, outs)
            }
    }
}

/// Concatenation of the groups' output lists, in order.
pub open spec fn concat_outs(outss: Seq<Seq<FileRows>>) -> Seq<FileRows>
    decreases outss.len(),
{
    if outss.len() == 0 {
        Seq::empty()
    } else {
        concat_outs(outss.drop_last()) + outss.last()
    }
}

/// The groups of a full compaction, folded in order: some chain of catalog
/// states starts at the catalog before and ends at the catalog after, each
/// link is one `full_group_step` on the matching group, and the outputs are
/// the concatenation of the groups' outputs.
pub open spec fn full_pass_groups(
    files: Seq<FileRows>,
    groups: Seq<Seq<FileMeta>>,
    partition_id: u64,
    cat_old: CatalogState,
    cat_new: CatalogState,
    outputs: Seq<FileRows>,
) -> bool {
    exists|mids: Seq<CatalogState>, outss: Seq<Seq<FileRows>>|
        #![trigger mids[0], concat_outs(outss)]
        {
            &&& mids.len() == groups.len() + 1
            &&& outss.len() == groups.len()
            &&& mids[0] == cat_old
            &&& mids[groups.len() as int] == cat_new
            &&& forall|i: int|
                0 <= i < groups.len() ==> full_group_step(
                    files,
                    groups[i],
                    partition_id,
                    mids[i],
                    mids[i + 1],
                    #[trigger] outss[i],
                )
            &&& outputs == concat_outs(outss)
        }
}

/// What one full-compaction pass did, exactly: the partition's live L1 files,
/// in lookup order, were packed into the size-target grouping, and each group
/// was promoted (singletons), rewritten at the final level, or — only when
/// its rows were not handed in — left alone, in order.
pub open spec fn full_pass_outcome(
    files: Seq<FileRows>,
    partition_id: u64,
    cold_max_desired_file_size_bytes: u64,
    cat_old: CatalogState,
    cat_new: CatalogState,
    outputs: Seq<FileRows>,
) -> bool {
    exists|l1: Seq<FileMeta>, groups: Seq<Seq<FileMeta>>|
        #![trigger crate::combine::well_grouped(groups, l1, cold_max_desired_file_size_bytes)]
        {
            &&& l1.to_multiset() == crate::files::live_of(
                metas_of(files),
                CompactionLevel::FileNonOverlapped,
            )
            &&& crate::files::lookup_sorted(l1)
            &&& crate::combine::well_grouped(groups, l1, cold_max_desired_file_size_bytes)
            &&& full_pass_groups(files, groups, partition_id, cat_old, cat_new, outputs)
        }
}

pub fn full_compaction(
    files: &Vec<FileRows>,
    partition_id: u64,
    cold_max_desired_file_size_bytes: u64,
    created_at: i64,
    catalog: CatalogState,
) -> (r: (CatalogState, Vec<FileRows>))
    requires
        catalog.wf(),
        cold_max_desired_file_size_bytes > 0,
        catalog.next_id as int + files@.len() < u64::MAX as int,
        forall|i: int| 0 <= i < files@.len() ==> (#[trigger] files@[i]).meta.id < catalog.next_id,
    ensures
        r.0.wf(),
        r.0.next_id >= catalog.next_id,
        catalog_progress(catalog.files@, r.0.files@, CompactionLevel::Final),
        forall|k: int|
            0 <= k < r.1@.len() ==> output_wf(
                #[trigger] r.1@[k],
                CompactionLevel::Final,
                partition_id,
            ),
        full_pass_outcome(
            files@,
            partition_id,
            cold_max_desired_file_size_bytes,
            catalog,
            r.0,
            r.1@,
        ),
{
    let ghost cat0 = catalog;
    let ghost gcat = catalog.files@;
    let ghost gnext = catalog.next_id;
    let metas = extract_metas(files);
    let lookup = crate::files::files_for_compaction(&metas);
    let l1 = lookup.level_1;
    let ghost gl1 = l1@;
    proof {
        broadcast use vstd::seq_lib::group_to_multiset_ensures;

        lemma_live_of_len(metas@, CompactionLevel::FileNonOverlapped);
        assert(l1@.len() == l1@.to_multiset().len());
    }
    let groups = crate::combine::group_files_by_size(l1, cold_max_desired_file_size_bytes);
    let ghost gview = crate::combine::groups_view(groups@);
    proof {
        lemma_flatten_groups_len(crate::combine::groups_view(groups@));
        assert(crate::combine::groups_view(groups@).len() == groups@.len());
    }
    let mut catalog = catalog;
    let mut outputs: Vec<FileRows> = Vec::new();
    let mut gi: usize = 0;
    let ghost mut gmids: Seq<CatalogState> = seq![cat0];
    let ghost mut goutss: Seq<Seq<FileRows>> = Seq::empty();
    proof {
        assert(concat_outs(goutss) =~= Seq::<FileRows>::empty());
    }
    while gi < groups.len()
        invariant
            0 <= gi <= groups@.len(),
            groups@.len() <= files@.len(),
            gview == crate::combine::groups_view(groups@),
            catalog.wf(),
            catalog.next_id >= gnext,
            catalog.next_id as int + (groups@.len() - gi) <= u64::MAX as int,
            catalog_progress(gcat, catalog.files@, CompactionLevel::Final),
            gmids.len() == gi + 1,
            goutss.len() == gi,
            gmids[0] == cat0,
            gmids[gi as int] == catalog,
            forall|i: int|
                0 <= i < gi ==> full_group_step(
                    files@,
                    gview[i],
                    partition_id,
                    gmids[i],
                    gmids[i + 1],
                    #[trigger] goutss[i],
                ),
            outputs@ == concat_outs(goutss),
            cat0.files@ == gcat,
            cat0.next_id == gnext,
            forall|i: int|
                gcat.len() <= i < catalog.files@.len() ==> (#[trigger] catalog.files@[i]).id
                    >= gnext,
            forall|i: int|
                0 <= i < files@.len() ==> (#[trigger] files@[i]).meta.id < gnext,
            forall|k: int|
                0 <= k < outputs@.len() ==> output_wf(
                    #[trigger] outputs@[k],
                    CompactionLevel::Final,
                    partition_id,
                ),
        decreases groups@.len() - gi,
    {
        let ghost cpre = catalog;
        let ghost obase = outputs@;
        let ghost cur = catalog.files@;
        let group = &groups[gi];
        let sel = select_files(files, group);
        if sel.len() == 1 && group.len() == 1 {
            // Promote the lone file to L2 without rewriting bytes.
            let mut ids: Vec<u64> = Vec::new();
            proof {
                let j = choose|j: int|
                    0 <= j < files@.len() && sel@[0].meta == files@[j].meta && rows_view(
                        sel@[0].rows@,
                    ) == rows_view(files@[j].rows@);
                assert(sel@[0].meta.id < gnext);
            }
            ids.push(sel[0].meta.id);
            let cat2 = catalog.update_compaction_level(&ids, CompactionLevel::Final);
            proof {
                assert forall|i: int| 0 <= i < gcat.len() implies file_preserved_up(
                    gcat[i],
                    #[trigger] cat2.files@[i],
                ) by {
                    assert(cat2.files@[i] == crate::catalog::promote_one(
                        cur[i],
                        ids@,
                        CompactionLevel::Final,
                    ));
                }
                assert forall|i: int|
                    gcat.len() <= i < cat2.files@.len() implies (
                #[trigger] cat2.files@[i]).compaction_level == CompactionLevel::Final
                    && !cat2.files@[i].to_delete && cat2.files@[i].id >= gnext by {
                    assert(cat2.files@[i] == crate::catalog::promote_one(
                        cur[i],
                        ids@,
                        CompactionLevel::Final,
                    ));
                    assert(cur[i].id >= gnext);
                    assert(ids@[0] < gnext);
                }
                assert(selection_covered(files@, group@)) by {
                    assert forall|m: int| 0 <= m < group@.len() implies exists|j: int|
                        0 <= j < files@.len() && (#[trigger] files@[j]).meta == #[trigger] group@[m]
                        by {
                        assert(sel@[0].meta == group@[0]);
                        let j = choose|j: int|
                            0 <= j < files@.len() && (#[trigger] sel@[0]).meta == files@[j].meta
                                && rows_view(sel@[0].rows@) == rows_view(files@[j].rows@);
                        assert(files@[j].meta == group@[m]);
                    }
                }
                assert(ids@ =~= seq![group@[0].id]);
                assert(full_group_step(
                    files@,
                    group@,
                    partition_id,
                    cpre,
                    cat2,
                    Seq::<FileRows>::empty(),
                ));
            }
            catalog = cat2;
            proof {
                assert(full_group_step(
                    files@,
                    gview[gi as int],
                    partition_id,
                    cpre,
                    catalog,
                    Seq::<FileRows>::empty(),
                ));
                let ghost prev_mids = gmids;
                let ghost prev_outss = goutss;
                gmids = gmids.push(catalog);
                goutss = goutss.push(Seq::<FileRows>::empty());
                assert(goutss.drop_last() =~= prev_outss);
                assert(gmids.drop_last() =~= prev_mids);
                assert(concat_outs(goutss) == concat_outs(prev_outss) + goutss.last());
                assert(outputs@ =~= concat_outs(goutss));
                assert forall|i: int|
                    0 <= i < gi + 1 implies full_group_step(
                    files@,
                    gview[i],
                    partition_id,
                    gmids[i],
                    gmids[i + 1],
                    #[trigger] goutss[i],
                ) by {
                    if i < gi {
                        assert(goutss[i] == prev_outss[i]);
                        assert(gmids[i] == prev_mids[i]);
                        assert(gmids[i + 1] == prev_mids[i + 1]);
                    } else {
                        assert(gmids[i] == cpre);
                        assert(gmids[i + 1] == catalog);
                    }
                }
            }
        } else if sel.len() == group.len() && sel.len() > 0 {
            let ghost gsel = sel@;
            proof {
                assert forall|k: int| 0 <= k < gsel.len() implies (#[trigger] ids_of(gsel)[k])
                    < gnext by {
                    let j = choose|j: int|
                        0 <= j < files@.len() && gsel[k].meta == files@[j].meta && rows_view(
                            gsel[k].rows@,
                        ) == rows_view(files@[j].rows@);
                }
            }
            let (cat2, outs) = compact_final_no_splits(sel, partition_id, created_at, catalog);
            proof {
                assert forall|i: int| 0 <= i < gcat.len() implies file_preserved_up(
                    gcat[i],
                    #[trigger] cat2.files@[i],
                ) by {
                    assert(cat2.files@[i] == flag_all(cur, ids_of(gsel))[i]);
                }
                assert forall|i: int|
                    gcat.len() <= i < cat2.files@.len() implies (
                #[trigger] cat2.files@[i]).compaction_level == CompactionLevel::Final
                    && !cat2.files@[i].to_delete && cat2.files@[i].id >= gnext by {
                    if i < cur.len() {
                        assert(cat2.files@[i] == flag_all(cur, ids_of(gsel))[i]);
                        assert(cur[i].id >= gnext);
                        assert(!contains_id(ids_of(gsel), cur[i].id)) by {
                            assert forall|m: int|
                                0 <= m < ids_of(gsel).len() implies #[trigger] ids_of(gsel)[m]
                                != cur[i].id by {}
                        }
                    } else {
                        assert(cat2.files@[i] == metas_of(outs@)[i - cur.len()]);
                        assert(output_wf(
                            outs@[i - cur.len()],
                            CompactionLevel::Final,
                            partition_id,
                        ));
                        assert(outs@[i - cur.len()].meta.id >= catalog.next_id);
                    }
                }
            }
            proof {
                assert(metas_of(gsel) =~= group@);
                assert(selection_covered(files@, group@)) by {
                    assert forall|m: int| 0 <= m < group@.len() implies exists|j: int|
                        0 <= j < files@.len() && (#[trigger] files@[j]).meta == #[trigger] group@[m]
                        by {
                        assert(gsel[m].meta == group@[m]);
                        let j = choose|j: int|
                            0 <= j < files@.len() && (#[trigger] gsel[m]).meta == files@[j].meta
                                && rows_view(gsel[m].rows@) == rows_view(files@[j].rows@);
                        assert(files@[j].meta == group@[m]);
                    }
                }
                assert(full_group_step(files@, group@, partition_id, cpre, cat2, outs@)) by {
                    assert(metas_of(gsel) == group@);
                }
            }
            catalog = cat2;
            let ghost gouts = outs@;
            let mut outs = outs;
            while outs.len() > 0
                invariant
                    outputs@ + outs@ == obase + gouts,
                    forall|k: int|
                        0 <= k < outs@.len() ==> output_wf(
                            #[trigger] outs@[k],
                            CompactionLevel::Final,
                            partition_id,
                        ),
                    forall|k: int|
                        0 <= k < outputs@.len() ==> output_wf(
                            #[trigger] outputs@[k],
                            CompactionLevel::Final,
                            partition_id,
                        ),
                decreases outs@.len(),
            {
                let ghost outs0 = outs@;
                let o = outs.remove(0);
                proof {
                    assert(outs0.remove(0) =~= outs0.drop_first());
                    assert(o == outs0.first());
                    assert((outputs@.push(o)) + outs0.drop_first() =~= outputs@ + outs0);
                }
                outputs.push(o);
            }
            proof {
                assert(outs@.len() == 0);
                assert(outputs@ =~= obase + gouts);
                assert(full_group_step(
                    files@,
                    gview[gi as int],
                    partition_id,
                    cpre,
                    catalog,
                    gouts,
                ));
                let ghost prev_mids = gmids;
                let ghost prev_outss = goutss;
                gmids = gmids.push(catalog);
                goutss = goutss.push(gouts);
                assert(goutss.drop_last() =~= prev_outss);
                assert(gmids.drop_last() =~= prev_mids);
                assert(concat_outs(goutss) == concat_outs(prev_outss) + goutss.last());
                assert(outputs@ =~= concat_outs(goutss));
                assert forall|i: int|
                    0 <= i < gi + 1 implies full_group_step(
                    files@,
                    gview[i],
                    partition_id,
                    gmids[i],
                    gmids[i + 1],
                    #[trigger] goutss[i],
                ) by {
                    if i < gi {
                        assert(goutss[i] == prev_outss[i]);
                        assert(gmids[i] == prev_mids[i]);
                        assert(gmids[i + 1] == prev_mids[i + 1]);
                    } else {
                        assert(gmids[i] == cpre);
                        assert(gmids[i + 1] == catalog);
                    }
                }
            }
        } else {
            proof {
                assert(group@.len() == 0 || sel@.len() != group@.len());
                if group@.len() > 0 {
                    assert(!selection_covered(files@, group@));
                }
                assert(full_group_step(
                    files@,
                    gview[gi as int],
                    partition_id,
                    cpre,
                    catalog,
                    Seq::<FileRows>::empty(),
                ));
                let ghost prev_mids = gmids;
                let ghost prev_outss = goutss;
                gmids = gmids.push(catalog);
                goutss = goutss.push(Seq::<FileRows>::empty());
                assert(goutss.drop_last() =~= prev_outss);
                assert(gmids.drop_last() =~= prev_mids);
                assert(concat_outs(goutss) == concat_outs(prev_outss) + goutss.last());
                assert(outputs@ =~= concat_outs(goutss));
                assert forall|i: int|
                    0 <= i < gi + 1 implies full_group_step(
                    files@,
                    gview[i],
                    partition_id,
                    gmids[i],
                    gmids[i + 1],
                    #[trigger] goutss[i],
                ) by {
                    if i < gi {
                        assert(goutss[i] == prev_outss[i]);
                        assert(gmids[i] == prev_mids[i]);
                        assert(gmids[i + 1] == prev_mids[i + 1]);
                    } else {
                        assert(gmids[i] == cpre);
                        assert(gmids[i + 1] == catalog);
                    }
                }
            }
        }
        gi = gi + 1;
    }
    proof {
        assert(crate::combine::well_grouped(gview, gl1, cold_max_desired_file_size_bytes));
        assert(gmids[0] == cat0);
        assert(concat_outs(goutss) == outputs@);
        assert(full_pass_groups(files@, gview, partition_id, cat0, catalog, outputs@));
        assert(full_pass_outcome(
            files@,
            partition_id,
            cold_max_desired_file_size_bytes,
            cat0,
            catalog,
            outputs@,
        ));
    }
    (catalog, outputs)
}

/// Dropping files by id never lengthens the list.
proof fn lemma_without_ids_len(files: Seq<FileRows>, ids: Seq<u64>)
    ensures
        without_ids(files, ids).len() <= files.len(),
    decreases files.len(),
{
    if files.len() > 0 {
        lemma_without_ids_len(files.drop_last(), ids);
    }
}

/// What one hot compaction pass did, exactly: for some lookup grouping of the
/// handed files and the budget-maximal hot selection over it, either the
/// handed rows covered a nonempty selection and one compaction operation ran
/// on copies of them, or the pass left everything unchanged — the latter only
/// when the selection was empty or some selected file's rows were not handed
/// in.
pub open spec fn hot_pass_outcome(
    files: Seq<FileRows>,
    partition_id: u64,
    memory_budget_bytes: u64,
    cols: Seq<crate::filter::ColumnTypeCount>,
    max_desired_file_size_bytes: u64,
    percentage_max_file_size: u64,
    split_percentage: u64,
    cat_old: CatalogState,
    cat_new: CatalogState,
    outputs: Seq<FileRows>,
) -> bool {
    exists|l0: Seq<FileMeta>, l1: Seq<FileMeta>, k: int|
        #![trigger crate::filter::hot_selection(l0, l1, k)]
        {
            &&& l0.to_multiset() == crate::files::live_of(
                metas_of(files),
                CompactionLevel::Initial,
            )
            &&& l1.to_multiset() == crate::files::live_of(
                metas_of(files),
                CompactionLevel::FileNonOverlapped,
            )
            &&& crate::files::lookup_sorted(l0)
            &&& crate::files::lookup_sorted(l1)
            &&& 0 <= k <= l0.len()
            &&& (k > 0 ==> crate::filter::hot_cost(l0, l1, k, cols) <= memory_budget_bytes)
            &&& (k < l0.len() ==> crate::filter::hot_cost(l0, l1, k + 1, cols)
                > memory_budget_bytes)
            &&& {
                let selection = crate::filter::hot_selection(l0, l1, k);
                if selection.len() > 0 && selection_covered(files, selection) {
                    exists|sel: Seq<FileRows>|
                        #![trigger metas_of(sel)]
                        {
                            &&& metas_of(sel) == selection
                            &&& forall|m: int|
                                0 <= m < sel.len() ==> exists|j: int|
                                    0 <= j < files.len() && (#[trigger] sel[m]).meta
                                        == files[j].meta && rows_view(sel[m].rows@) == rows_view(
                                        files[j].rows@,
                                    )
                            &&& compact_post(
                                sel,
                                partition_id,
                                CompactionLevel::FileNonOverlapped,
                                max_desired_file_size_bytes,
                                percentage_max_file_size,
                                split_percentage,
                                cat_old,
                                cat_new,
                                outputs,
                            )
                        }
                } else {
                    cat_new.files@ == cat_old.files@ && cat_new.next_id == cat_old.next_id
                        && outputs.len() == 0
                }
            }
        }
}

/// One hot compaction operation over a partition: select input files under the
/// memory budget and rewrite them at L1. A selection the handed rows do not
/// cover, or an empty one, skips the partition.
pub fn compact_hot_partition(
    files: &Vec<FileRows>,
    partition_id: u64,
    memory_budget_bytes: u64,
    cols: &Vec<crate::filter::ColumnTypeCount>,
    max_desired_file_size_bytes: u64,
    percentage_max_file_size: u64,
    split_percentage: u64,
    created_at: i64,
    catalog: CatalogState,
) -> (r: (CatalogState, Vec<FileRows>))
    requires
        catalog.wf(),
        catalog.next_id <= u64::MAX - 2,
        split_percentage <= 100,
    ensures
        r.0.wf(),
        r.0.next_id >= catalog.next_id,
        catalog_progress(catalog.files@, r.0.files@, CompactionLevel::FileNonOverlapped),
        forall|k: int|
            0 <= k < r.1@.len() ==> output_wf(
                #[trigger] r.1@[k],
                CompactionLevel::FileNonOverlapped,
                partition_id,
            ),
        hot_pass_outcome(
            files@,
            partition_id,
            memory_budget_bytes,
            cols@,
            max_desired_file_size_bytes,
            percentage_max_file_size,
            split_percentage,
            catalog,
            r.0,
            r.1@,
        ),
{
    let ghost gcat = catalog.files@;
    let metas = extract_metas(files);
    let lookup = crate::files::files_for_compaction(&metas);
    let filtered = crate::filter::filter_hot_parquet_files(&lookup, memory_budget_bytes, cols);
    let ghost gl0 = lookup.level_0@;
    let ghost gl1 = lookup.level_1@;
    let ghost gk = choose|k: int|
        {
            &&& 0 <= k <= gl0.len()
            &&& filtered.files@ == crate::filter::hot_selection(gl0, gl1, k)
            &&& (k > 0 ==> crate::filter::hot_cost(gl0, gl1, k, cols@) <= memory_budget_bytes)
            &&& (k < gl0.len() ==> crate::filter::hot_cost(gl0, gl1, k + 1, cols@)
                > memory_budget_bytes)
        };
    let sel = select_files(files, &filtered.files);
    if sel.len() != filtered.files.len() || sel.len() == 0 {
        proof {
            let selection = crate::filter::hot_selection(gl0, gl1, gk);
            if sel@.len() != filtered.files@.len() {
                assert(!selection_covered(files@, selection));
            }
            assert(!(selection.len() > 0 && selection_covered(files@, selection)));
            assert(hot_pass_outcome(
                files@,
                partition_id,
                memory_budget_bytes,
                cols@,
                max_desired_file_size_bytes,
                percentage_max_file_size,
                split_percentage,
                catalog,
                catalog,
                Seq::<FileRows>::empty(),
            ));
        }
        return (catalog, Vec::new());
    }
    proof {
        assert(metas_of(sel@) =~= filtered.files@);
    }
    let ghost gsel = sel@;
    let (cat2, outputs) = compact_parquet_files(
        sel,
        partition_id,
        CompactionLevel::FileNonOverlapped,
        max_desired_file_size_bytes,
        percentage_max_file_size,
        split_percentage,
        created_at,
        catalog,
    );
    proof {
        assert forall|i: int| 0 <= i < gcat.len() implies file_preserved_up(
            gcat[i],
            #[trigger] cat2.files@[i],
        ) by {
            assert(cat2.files@[i] == flag_all(gcat, ids_of(gsel))[i]);
        }
        assert forall|i: int|
            gcat.len() <= i < cat2.files@.len() implies (#[trigger] cat2.files@[i]).compaction_level
            == CompactionLevel::FileNonOverlapped && !cat2.files@[i].to_delete by {
            assert(cat2.files@[i] == metas_of(outputs@)[i - gcat.len()]);
            assert(output_wf(
                outputs@[i - gcat.len()],
                CompactionLevel::FileNonOverlapped,
                partition_id,
            ));
        }
        let selection = crate::filter::hot_selection(gl0, gl1, gk);
        assert(selection == metas_of(gsel));
        assert(selection_covered(files@, selection)) by {
            assert forall|m: int| 0 <= m < selection.len() implies exists|j: int|
                0 <= j < files@.len() && (#[trigger] files@[j]).meta == #[trigger] selection[m] by {
                assert(gsel[m].meta == selection[m]);
                let j = choose|j: int|
                    0 <= j < files@.len() && (#[trigger] gsel[m]).meta == files@[j].meta
                        && rows_view(gsel[m].rows@) == rows_view(files@[j].rows@);
                assert(files@[j].meta == selection[m]);
            }
        }
        assert(hot_pass_outcome(
            files@,
            partition_id,
            memory_budget_bytes,
            cols@,
            max_desired_file_size_bytes,
            percentage_max_file_size,
            split_percentage,
            catalog,
            cat2,
            outputs@,
        )) by {
            assert(metas_of(gsel) == selection);
        }
    }
    (cat2, outputs)
}

/// One cold compaction operation over a partition: rewrite the remaining L0
/// files at L1, then run full compaction of the L1 files to L2.
pub fn compact_cold_partition(
    files: &Vec<FileRows>,
    partition_id: u64,
    cold_input_size_threshold_bytes: u64,
    cold_input_file_count_threshold: u64,
    max_desired_file_size_bytes: u64,
    percentage_max_file_size: u64,
    split_percentage: u64,
    cold_max_desired_file_size_bytes: u64,
    created_at: i64,
    catalog: CatalogState,
) -> (r: (CatalogState, Vec<FileRows>))
    requires
        catalog.wf(),
        cold_max_desired_file_size_bytes > 0,
        split_percentage <= 100,
        catalog.next_id as int + files@.len() + 5 <= u64::MAX as int,
        forall|i: int| 0 <= i < files@.len() ==> (#[trigger] files@[i]).meta.id < catalog.next_id,
    ensures
        r.0.wf(),
        r.0.next_id >= catalog.next_id,
        exists|mid: Seq<FileMeta>|
            catalog_progress(catalog.files@, mid, CompactionLevel::FileNonOverlapped)
                && #[trigger] catalog_progress(mid, r.0.files@, CompactionLevel::Final),
        forall|k: int|
            0 <= k < r.1@.len() ==> output_wf(
                #[trigger] r.1@[k],
                CompactionLevel::Final,
                partition_id,
            ),
        exists|mid: CatalogState, l1_outputs: Seq<FileRows>, live1: Seq<FileRows>|
            {
                &&& #[trigger] cold_pass_outcome(
                    files@,
                    partition_id,
                    cold_input_size_threshold_bytes,
                    cold_input_file_count_threshold,
                    max_desired_file_size_bytes,
                    percentage_max_file_size,
                    split_percentage,
                    catalog,
                    mid,
                    l1_outputs,
                    live1,
                )
                &&& full_pass_outcome(
                    live1,
                    partition_id,
                    cold_max_desired_file_size_bytes,
                    mid,
                    r.0,
                    r.1@,
                )
            },
{
    let (cat1, l1_outputs, live1) = compact_remaining_level_0_files(
        files,
        partition_id,
        cold_input_size_threshold_bytes,
        cold_input_file_count_threshold,
        max_desired_file_size_bytes,
        percentage_max_file_size,
        split_percentage,
        created_at,
        catalog,
    );
    let ghost mid = cat1.files@;
    let ghost gcat1 = cat1;
    let ghost gl1outs = l1_outputs@;
    let ghost glive1 = live1@;
    let (cat2, outputs) = full_compaction(
        &live1,
        partition_id,
        cold_max_desired_file_size_bytes,
        created_at,
        cat1,
    );
    proof {
        assert(catalog_progress(catalog.files@, mid, CompactionLevel::FileNonOverlapped)
            && catalog_progress(mid, cat2.files@, CompactionLevel::Final));
        assert(cold_pass_outcome(
            files@,
            partition_id,
            cold_input_size_threshold_bytes,
            cold_input_file_count_threshold,
            max_desired_file_size_bytes,
            percentage_max_file_size,
            split_percentage,
            catalog,
            gcat1,
            gl1outs,
            glive1,
        ));
        assert(full_pass_outcome(
            glive1,
            partition_id,
            cold_max_desired_file_size_bytes,
            gcat1,
            cat2,
            outputs@,
        ));
    }
    (cat2, outputs)
}

/// A row at or before the split point keeps the lower half nonempty.
proof fn lemma_at_most_nonempty(rs: Seq<Row>, t: int, i: int)
    requires
        0 <= i < rs.len(),
        rs[i].time <= t,
    ensures
        rows_at_most(rs, t).len() > 0,
    decreases rs.len(),
{
    if i < rs.len() - 1 {
        lemma_at_most_nonempty(rs.drop_last(), t, i);
    }
}

/// A row after the split point keeps the upper half nonempty.
proof fn lemma_above_nonempty(rs: Seq<Row>, t: int, i: int)
    requires
        0 <= i < rs.len(),
        rs[i].time > t,
    ensures
        rows_above(rs, t).len() > 0,
    decreases rs.len(),
{
    if i < rs.len() - 1 {
        lemma_above_nonempty(rs.drop_last(), t, i);
    }
}

} // verus!
