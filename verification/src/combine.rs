//! Split and grouping decisions of the merge/dedup/split pipeline.
//!
//! Hot compaction rewrites its inputs into one output, or splits the rows at a
//! time point so that the first output covers a fixed share of the input time
//! range. Full cold compaction packs L1 files into groups by size and rewrites
//! each group into one L2 file.

use vstd::prelude::*;
use vstd::seq_lib::group_to_multiset_ensures;
use crate::files::FileMeta;
use crate::filter::{sat_add, total_file_size};
use crate::rows::{Row, rows_view};

verus! {

/// Hot compaction splits its output when the total input size exceeds
/// `percentage` per cent of the desired output file size.
pub open spec fn spec_needs_split(total_size: u64, max_desired: u64, percentage: u64) -> bool {
    total_size as int * 100 > max_desired as int * percentage as int
}

/// Split decision for hot compaction.
pub fn needs_split(total_size: u64, max_desired: u64, percentage: u64) -> (r: bool)
    ensures
        r == spec_needs_split(total_size, max_desired, percentage),
{
    proof {
        assert((max_desired as int) * (percentage as int) <= u128::MAX) by (nonlinear_arith)
            requires
                max_desired <= u64::MAX,
                percentage <= u64::MAX,
        ;
    }
    (total_size as u128) * 100 > (max_desired as u128) * (percentage as u128)
}

/// The time point a split cuts at: the first output covers `pct` per cent of
/// the input time range.
pub open spec fn spec_split_time(min_time: int, max_time: int, pct: int) -> int {
    min_time + (max_time - min_time) * pct / 100
}

/// Compute the split time.
pub fn split_time(min_time: i64, max_time: i64, pct: u64) -> (t: i64)
    requires
        min_time <= max_time,
        pct <= 100,
    ensures
        t as int == spec_split_time(min_time as int, max_time as int, pct as int),
        min_time <= t <= max_time,
{
    let diff: i128 = (max_time as i128) - (min_time as i128);
    proof {
        assert(diff * pct <= diff * 100) by (nonlinear_arith)
            requires
                0 <= diff,
                0 <= pct <= 100,
        ;
        assert(0 <= diff * pct) by (nonlinear_arith)
            requires
                0 <= diff,
                0 <= pct,
        ;
        assert(diff * 100 / 100 == diff) by (nonlinear_arith);
        assert(diff * pct / 100 <= diff * 100 / 100) by (nonlinear_arith)
            requires
                diff * pct <= diff * 100,
        ;
        assert(0 <= diff * pct / 100);
    }
    let off: i128 = diff * (pct as i128) / 100;
    (min_time as i128 + off) as i64
}

/// The rows with timestamp at or before `t`, in order.
pub open spec fn rows_at_most(rs: Seq<Row>, t: int) -> Seq<Row>
    decreases rs.len(),
{
    if rs.len() == 0 {
        Seq::empty()
    } else {
        let rest = rows_at_most(rs.drop_last(), t);
        if rs.last().time <= t {
            rest.push(rs.last())
        } else {
            rest
        }
    }
}

/// The rows with timestamp after `t`, in order.
pub open spec fn rows_above(rs: Seq<Row>, t: int) -> Seq<Row>
    decreases rs.len(),
{
    if rs.len() == 0 {
        Seq::empty()
    } else {
        let rest = rows_above(rs.drop_last(), t);
        if rs.last().time > t {
            rest.push(rs.last())
        } else {
            rest
        }
    }
}

/// Split rows at a time point: the first result holds the rows at or before
/// `t`, the second the rows after it, each in input order.
pub fn split_rows(rows: Vec<Row>, t: i64) -> (r: (Vec<Row>, Vec<Row>))
    ensures
        r.0@ == rows_at_most(rows@, t as int),
        r.1@ == rows_above(rows@, t as int),
{
    let ghost grows = rows@;
    let mut rows = rows;
    let mut lo: Vec<Row> = Vec::new();
    let mut hi: Vec<Row> = Vec::new();
    let mut i: usize = 0;
    let n = rows.len();
    proof {
        assert(n == rows@.len());
    }
    while rows.len() > 0
        invariant
            0 <= i <= grows.len(),
            i + rows@.len() <= usize::MAX,
            rows@ == grows.skip(i as int),
            lo@ == rows_at_most(grows.take(i as int), t as int),
            hi@ == rows_above(grows.take(i as int), t as int),
        decreases rows@.len(),
    {
        let r = rows.remove(0);
        proof {
            assert(grows.skip(i as int).remove(0) =~= grows.skip(i + 1));
            assert(r == grows[i as int]);
            assert(grows.take(i + 1).drop_last() =~= grows.take(i as int));
            assert(grows.take(i + 1).last() == grows[i as int]);
        }
        if r.time <= t {
            lo.push(r);
        } else {
            hi.push(r);
        }
        i = i + 1;
    }
    proof {
        assert(grows.skip(i as int).len() == 0);
        assert(i == grows.len());
        assert(grows.take(grows.len() as int) =~= grows);
    }
    (lo, hi)
}

/// Splitting loses no row and invents none: together the two halves hold
/// exactly the rows of the input, as a multiset of row values.
pub proof fn lemma_split_preserves_rows(rs: Seq<Row>, t: int)
    ensures
        rows_view(rows_at_most(rs, t)).to_multiset().add(
            rows_view(rows_above(rs, t)).to_multiset(),
        ) == rows_view(rs).to_multiset(),
    decreases rs.len(),
{
    broadcast use group_to_multiset_ensures;

    if rs.len() == 0 {
        assert(rows_at_most(rs, t) =~= Seq::<Row>::empty());
        assert(rows_above(rs, t) =~= Seq::<Row>::empty());
        assert(rows_view(Seq::<Row>::empty()) =~= Seq::empty());
        assert(rows_view(rs) =~= Seq::empty());
        assert(rows_view(rows_at_most(rs, t)).to_multiset().add(
            rows_view(rows_above(rs, t)).to_multiset(),
        ) =~= rows_view(rs).to_multiset());
    } else {
        lemma_split_preserves_rows(rs.drop_last(), t);
        let lo = rows_at_most(rs.drop_last(), t);
        let hi = rows_above(rs.drop_last(), t);
        assert(rows_view(rs) =~= rows_view(rs.drop_last()).push(row_view_of(rs.last())));
        if rs.last().time <= t {
            assert(rows_view(rows_at_most(rs, t)) =~= rows_view(lo).push(row_view_of(rs.last())));
            assert(rows_view(rows_above(rs, t)) =~= rows_view(hi));
        } else {
            assert(rows_view(rows_at_most(rs, t)) =~= rows_view(lo));
            assert(rows_view(rows_above(rs, t)) =~= rows_view(hi).push(row_view_of(rs.last())));
        }
        assert(rows_view(rows_at_most(rs, t)).to_multiset().add(
            rows_view(rows_above(rs, t)).to_multiset(),
        ) =~= rows_view(rs).to_multiset());
    }
}

/// Value of one row (helper to keep trigger terms readable).
pub open spec fn row_view_of(r: Row) -> (
    Seq<(Seq<char>, Seq<char>)>,
    int,
    Seq<(Seq<char>, int)>,
) {
    crate::rows::row_view(r)
}

/// Smallest and largest timestamp of a nonempty row list.
pub fn rows_time_bounds(rows: &Vec<Row>) -> (r: (i64, i64))
    requires
        rows@.len() > 0,
    ensures
        r.0 <= r.1,
        forall|i: int| 0 <= i < rows@.len() ==> r.0 <= #[trigger] rows@[i].time <= r.1,
        exists|i: int| 0 <= i < rows@.len() && #[trigger] rows@[i].time == r.0,
        exists|i: int| 0 <= i < rows@.len() && #[trigger] rows@[i].time == r.1,
{
    let mut mn = rows[0].time;
    let mut mx = rows[0].time;
    let mut i: usize = 1;
    while i < rows.len()
        invariant
            1 <= i <= rows@.len(),
            mn <= mx,
            forall|j: int| 0 <= j < i ==> mn <= #[trigger] rows@[j].time <= mx,
            exists|j: int| 0 <= j < i && #[trigger] rows@[j].time == mn,
            exists|j: int| 0 <= j < i && #[trigger] rows@[j].time == mx,
        decreases rows@.len() - i,
    {
        if rows[i].time < mn {
            mn = rows[i].time;
        }
        if rows[i].time > mx {
            mx = rows[i].time;
        }
        i = i + 1;
    }
    (mn, mx)
}

/// Mathematical value of a list of groups.
pub open spec fn groups_view(gs: Seq<Vec<FileMeta>>) -> Seq<Seq<FileMeta>> {
    gs.map_values(|g: Vec<FileMeta>| g@)
}

/// Concatenation of the groups, in order.
pub open spec fn flatten_groups(groups: Seq<Seq<FileMeta>>) -> Seq<FileMeta>
    decreases groups.len(),
{
    if groups.len() == 0 {
        Seq::empty()
    } else {
        flatten_groups(groups.drop_last()) + groups.last()
    }
}

/// What the cold grouping promises: the groups concatenate back to the input
/// in order, every group is nonempty and was still under `max` before its last
/// file, and every group but the last reached `max`.
pub open spec fn well_grouped(groups: Seq<Seq<FileMeta>>, files: Seq<FileMeta>, max: u64) -> bool {
    &&& flatten_groups(groups) == files
    &&& forall|i: int| 0 <= i < groups.len() ==> #[trigger] groups[i].len() > 0
    &&& forall|i: int|
        0 <= i < groups.len() ==> total_file_size(#[trigger] groups[i].drop_last()) < max
    &&& forall|i: int|
        0 <= i < groups.len() - 1 ==> total_file_size(#[trigger] groups[i]) >= max
}

/// Pack files into groups for full cold compaction: files are taken in order,
/// and a group closes as soon as its cumulative size reaches `max`. Each group
/// becomes one L2 output.
pub fn group_files_by_size(files: Vec<FileMeta>, max: u64) -> (groups: Vec<Vec<FileMeta>>)
    requires
        max > 0,
    ensures
        well_grouped(groups_view(groups@), files@, max),
{
    let ghost gfiles = files@;
    let mut files = files;
    let mut groups: Vec<Vec<FileMeta>> = Vec::new();
    let mut group: Vec<FileMeta> = Vec::new();
    let mut group_size: u64 = 0;
    let mut i: usize = 0;
    let n = files.len();
    proof {
        assert(n == files@.len());
        assert(flatten_groups(Seq::<Seq<FileMeta>>::empty()) + Seq::<FileMeta>::empty()
            =~= gfiles.take(0));
    }
    while files.len() > 0
        invariant
            0 <= i <= gfiles.len(),
            i + files@.len() <= usize::MAX,
            files@ == gfiles.skip(i as int),
            group_size == total_file_size(group@),
            group_size < max,
            flatten_groups(groups_view(groups@)) + group@ == gfiles.take(
                i as int,
            ),
            forall|k: int|
                0 <= k < groups@.len() ==> (#[trigger] groups_view(groups@)[k]).len() > 0,
            forall|k: int|
                0 <= k < groups@.len() ==> total_file_size(
                    (#[trigger] groups_view(groups@)[k]).drop_last(),
                ) < max,
            forall|k: int|
                0 <= k < groups@.len() ==> total_file_size(
                    #[trigger] groups_view(groups@)[k],
                ) >= max,
        decreases files@.len(),
    {
        let f = files.remove(0);
        proof {
            assert(gfiles.skip(i as int).remove(0) =~= gfiles.skip(i + 1));
            assert(f == gfiles[i as int]);
        }
        let ghost old_group = group@;
        let ghost old_groups = groups@;
        group_size = crate::filter::sat_add_exec(group_size, f.file_size_bytes);
        group.push(f);
        proof {
            assert(group@.drop_last() =~= old_group);
            assert(gfiles.take(i + 1) =~= gfiles.take(i as int).push(f));
            assert(flatten_groups(groups_view(groups@)) + group@
                =~= gfiles.take(i + 1));
        }
        if group_size >= max {
            let ghost closed = group@;
            let ghost closed_size = group_size;
            groups.push(group);
            group = Vec::new();
            group_size = 0;
            proof {
                assert(groups_view(groups@).drop_last() =~= groups_view(old_groups));
                assert(groups_view(groups@).last() == closed);
                assert(closed.drop_last() =~= old_group);
                assert(flatten_groups(groups_view(groups@)) + group@ =~= gfiles.take(i + 1));
                assert forall|k: int| 0 <= k < groups@.len() implies {
                    &&& (#[trigger] groups_view(groups@)[k]).len() > 0
                    &&& total_file_size(groups_view(groups@)[k].drop_last()) < max
                    &&& total_file_size(groups_view(groups@)[k]) >= max
                } by {
                    if k < groups@.len() - 1 {
                        assert(groups_view(groups@)[k] == groups_view(groups@).drop_last()[k]);
                        assert(groups_view(groups@)[k] == groups_view(old_groups)[k]);
                    } else {
                        assert(groups_view(groups@)[k] == closed);
                        assert(total_file_size(closed) == closed_size);
                    }
                }
            }
        }
        i = i + 1;
    }
    proof {
        assert(gfiles.skip(i as int).len() == 0);
        assert(i == gfiles.len());
        assert(gfiles.take(gfiles.len() as int) =~= gfiles);
    }
    if group.len() > 0 {
        let ghost old_groups = groups@;
        let ghost tail = group@;
        let ghost tail_size = group_size;
        groups.push(group);
        proof {
            assert(groups_view(groups@).drop_last() =~= groups_view(old_groups));
            assert(groups_view(groups@).last() == tail);
            assert(flatten_groups(groups_view(groups@)) =~= gfiles);
            assert forall|k: int| 0 <= k < groups@.len() implies {
                &&& (#[trigger] groups_view(groups@)[k]).len() > 0
                &&& total_file_size(groups_view(groups@)[k].drop_last()) < max
                &&& (k < groups@.len() - 1 ==> total_file_size(groups_view(groups@)[k]) >= max)
            } by {
                if k < groups@.len() - 1 {
                    assert(groups_view(groups@)[k] == groups_view(groups@).drop_last()[k]);
                    assert(groups_view(groups@)[k] == groups_view(old_groups)[k]);
                } else {
                    assert(groups_view(groups@)[k] == tail);
                    assert(total_file_size(tail) == sat_add(
                        total_file_size(tail.drop_last()),
                        tail.last().file_size_bytes,
                    ));
                    assert(total_file_size(tail) == tail_size);
                }
            }
        }
    } else {
        proof {
            assert(group@ =~= Seq::<FileMeta>::empty());
            assert(flatten_groups(groups_view(groups@)) + group@ =~= flatten_groups(
                groups_view(groups@),
            ));
            assert(flatten_groups(groups_view(groups@)) =~= gfiles);
        }
    }
    groups
}

/// Size discipline of cold grouping: when every input file weighs at most a
/// fifth of the target size, every group but the last lands within twenty per
/// cent of the target.
pub proof fn lemma_group_size_discipline(
    groups: Seq<Seq<FileMeta>>,
    files: Seq<FileMeta>,
    max: u64,
    i: int,
)
    requires
        well_grouped(groups, files, max),
        forall|j: int| 0 <= j < files.len() ==> #[trigger] files[j].file_size_bytes <= max / 5,
        0 <= i < groups.len() - 1,
    ensures
        max - max / 5 <= total_file_size(groups[i]) <= max + max / 5,
{
    let g = groups[i];
    lemma_flatten_contains(groups, files, i, g.len() - 1);
    assert(g.last().file_size_bytes <= max / 5);
    assert(total_file_size(g) == sat_add(total_file_size(g.drop_last()), g.last().file_size_bytes));
}

/// Position of a group member in the flattened list.
proof fn lemma_flatten_group_index(groups: Seq<Seq<FileMeta>>, i: int, a: int)
    requires
        0 <= i < groups.len(),
        0 <= a < groups[i].len(),
    ensures
        0 <= flatten_groups(groups.take(i)).len() + a < flatten_groups(groups).len(),
        flatten_groups(groups)[flatten_groups(groups.take(i)).len() + a] == groups[i][a],
    decreases groups.len(),
{
    if i == groups.len() - 1 {
        assert(groups.take(i) =~= groups.drop_last());
        lemma_flatten_len_nonneg(groups.take(i));
    } else {
        lemma_flatten_group_index(groups.drop_last(), i, a);
        assert(groups.drop_last().take(i) =~= groups.take(i));
        assert(groups.drop_last()[i] == groups[i]);
        lemma_flatten_len_nonneg(groups.take(i));
    }
}

/// Flattened lists have nonnegative length.
proof fn lemma_flatten_len_nonneg(groups: Seq<Seq<FileMeta>>)
    ensures
        flatten_groups(groups).len() >= 0,
{
}

/// Prefixes of the grouping flatten to prefixes of the file list.
proof fn lemma_flatten_take_len_monotone(groups: Seq<Seq<FileMeta>>, i: int, j: int)
    requires
        0 <= i <= j <= groups.len(),
        forall|k: int| 0 <= k < groups.len() ==> (#[trigger] groups[k]).len() > 0,
    ensures
        flatten_groups(groups.take(i)).len() + (j - i) <= flatten_groups(groups.take(j)).len(),
    decreases j - i,
{
    if i < j {
        lemma_flatten_take_len_monotone(groups, i, j - 1);
        assert(groups.take(j).drop_last() =~= groups.take(j - 1));
        assert(groups.take(j).last() == groups[j - 1]);
        assert(groups[j - 1].len() > 0);
    }
}

/// Non-overlap after full cold compaction: when the L1 files are ordered in
/// time and pairwise disjoint, any two files taken from different groups of
/// the cold grouping are time-disjoint — so the L2 outputs, each spanning one
/// group, are pairwise time-disjoint.
pub proof fn lemma_groups_time_disjoint(
    groups: Seq<Seq<FileMeta>>,
    files: Seq<FileMeta>,
    max: u64,
    i: int,
    j: int,
    a: int,
    b: int,
)
    requires
        well_grouped(groups, files, max),
        forall|p: int, q: int|
            0 <= p < q < files.len() ==> (#[trigger] files[p]).max_time < (
            #[trigger] files[q]).min_time,
        0 <= i < j < groups.len(),
        0 <= a < groups[i].len(),
        0 <= b < groups[j].len(),
    ensures
        groups[i][a].max_time < groups[j][b].min_time,
{
    lemma_flatten_group_index(groups, i, a);
    lemma_flatten_group_index(groups, j, b);
    let pa = flatten_groups(groups.take(i)).len() + a;
    let pb = flatten_groups(groups.take(j)).len() + b;
    assert(pa < pb) by {
        lemma_flatten_take_len_monotone(groups, i, j);
        assert(flatten_groups(groups.take(i)).len() + (j - i) <= flatten_groups(
            groups.take(j),
        ).len());
        assert(a < groups[i].len());
        assert(groups[i].len() <= j - i ==> a < j - i);
        lemma_group_fits_gap(groups, i, j);
    }
    assert(files[pa].max_time < files[pb].min_time);
}

/// A group's length is covered by the flattening of the groups between two
/// prefix points.
proof fn lemma_group_fits_gap(groups: Seq<Seq<FileMeta>>, i: int, j: int)
    requires
        0 <= i < j <= groups.len(),
    ensures
        flatten_groups(groups.take(i)).len() + groups[i].len() <= flatten_groups(
            groups.take(j),
        ).len(),
    decreases j - i,
{
    if j == i + 1 {
        assert(groups.take(j).drop_last() =~= groups.take(i));
        assert(groups.take(j).last() == groups[i]);
    } else {
        lemma_group_fits_gap(groups, i, j - 1);
        assert(groups.take(j).drop_last() =~= groups.take(j - 1));
        lemma_flatten_len_nonneg_seq(groups.take(j).last());
    }
}

/// Sequence lengths are nonnegative.
proof fn lemma_flatten_len_nonneg_seq(s: Seq<FileMeta>)
    ensures
        s.len() >= 0,
{
}

/// Every member of a group is a member of the flattened file list.
proof fn lemma_flatten_contains(groups: Seq<Seq<FileMeta>>, files: Seq<FileMeta>, i: int, j: int)
    requires
        flatten_groups(groups) == files,
        0 <= i < groups.len(),
        0 <= j < groups[i].len(),
    ensures
        exists|k: int| 0 <= k < files.len() && files[k] == groups[i][j],
    decreases groups.len(),
{
    if i == groups.len() - 1 {
        let k = flatten_groups(groups.drop_last()).len() + j;
        assert(files[k] == groups[i][j]);
    } else {
        lemma_flatten_contains(groups.drop_last(), flatten_groups(groups.drop_last()), i, j);
        let k = choose|k: int|
            0 <= k < flatten_groups(groups.drop_last()).len() && flatten_groups(
                groups.drop_last(),
            )[k] == groups.drop_last()[i][j];
        assert(files[k] == groups[i][j]);
    }
}

} // verus!
