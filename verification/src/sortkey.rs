//! Sort-key resolution.
//!
//! The partition's sort key orders the rows of every file. Before writing
//! outputs, compaction extends the catalog's sort key with any tag columns the
//! inputs carry that the key does not cover yet, so that readers see a sort
//! key covering every output row. The existing order is never reordered: the
//! old key is always a prefix of the new one, and the new columns land after
//! it in alphabetical order.

use vstd::prelude::*;
use vstd::seq_lib::group_to_multiset_ensures;
use crate::order::{chars_lt, lemma_chars_lt_total, names_sorted, str_lt};

verus! {

/// Values of a column-name list.
pub open spec fn cols_view(v: Seq<String>) -> Seq<Seq<char>> {
    v.map_values(|s: String| s@)
}

/// Does the list hold this column name?
pub open spec fn has_col(v: Seq<Seq<char>>, c: Seq<char>) -> bool {
    exists|i: int| 0 <= i < v.len() && v[i] == c
}

/// Membership test on a prefix of a column-name list.
fn has_col_prefix(v: &Vec<String>, k: usize, c: &String) -> (r: bool)
    requires
        k <= v@.len(),
    ensures
        r == has_col(cols_view(v@).take(k as int), c@),
{
    let mut i: usize = 0;
    while i < k
        invariant
            0 <= i <= k <= v@.len(),
            forall|j: int| 0 <= j < i ==> #[trigger] cols_view(v@).take(k as int)[j] != c@,
        decreases k - i,
    {
        if v[i].eq(c) {
            proof {
                assert(cols_view(v@).take(k as int)[i as int] == c@);
            }
            return true;
        }
        proof {
            assert(cols_view(v@).take(k as int)[i as int] == v@[i as int]@);
        }
        i = i + 1;
    }
    false
}

/// Membership test on column names.
fn has_col_exec(v: &Vec<String>, c: &String) -> (r: bool)
    ensures
        r == has_col(cols_view(v@), c@),
{
    let mut i: usize = 0;
    while i < v.len()
        invariant
            0 <= i <= v@.len(),
            forall|j: int| 0 <= j < i ==> cols_view(v@)[j] != c@,
        decreases v@.len() - i,
    {
        if v[i].eq(c) {
            proof {
                assert(cols_view(v@)[i as int] == c@);
            }
            return true;
        }
        i = i + 1;
    }
    false
}

/// The columns of `tags` (a prefix of length `k`) that `key` does not cover,
/// first occurrences only, in order.
pub open spec fn missing_cols(key: Seq<Seq<char>>, tags: Seq<Seq<char>>, k: int) -> Seq<Seq<char>>
    decreases k,
{
    if k <= 0 {
        Seq::empty()
    } else {
        let rest = missing_cols(key, tags, k - 1);
        if !has_col(key, tags[k - 1]) && !has_col(tags.take(k - 1), tags[k - 1]) {
            rest.push(tags[k - 1])
        } else {
            rest
        }
    }
}

/// What a sort-key resolution decides.
pub enum SortKeyUpdate {
    /// The partition had no sort key yet; persist the data's key.
    Assign(Vec<String>),
    /// The key misses columns the inputs carry; persist the extended key.
    Extend(Vec<String>),
    /// The key already covers every input column.
    Unchanged,
}

/// Insert a fresh column name into an alphabetically sorted list, keeping the
/// order.
fn insert_col_sorted(v: &mut Vec<String>, x: String)
    requires
        names_sorted(cols_view(old(v)@)),
        !has_col(cols_view(old(v)@), x@),
    ensures
        names_sorted(cols_view(final(v)@)),
        cols_view(final(v)@).to_multiset() == cols_view(old(v)@).to_multiset().insert(x@),
{
    broadcast use group_to_multiset_ensures;

    let ghost orig = v@;
    let mut i: usize = v.len();
    while i > 0 && !str_lt(&v[i - 1], &x)
        invariant
            0 <= i <= v.len(),
            v@ == orig,
            forall|j: int| i <= j < orig.len() ==> !chars_lt(cols_view(orig)[j], x@),
        decreases i,
    {
        i = i - 1;
    }
    proof {
        assert forall|j: int| i <= j < orig.len() implies chars_lt(x@, cols_view(orig)[j]) by {
            assert(cols_view(orig)[j] != x@);
            lemma_chars_lt_total(x@, cols_view(orig)[j]);
        }
        assert forall|p: int| 0 <= p < i implies chars_lt(cols_view(orig)[p], x@) by {
            assert(chars_lt(cols_view(orig)[i - 1], x@));
            if p < i - 1 {
                assert(chars_lt(cols_view(orig)[p], cols_view(orig)[i - 1]));
                crate::order::lemma_chars_lt_trans(
                    cols_view(orig)[p],
                    cols_view(orig)[i - 1],
                    x@,
                );
            }
        }
    }
    let ghost gi = i as int;
    let ghost gx = x@;
    v.insert(i, x);
    proof {
        assert(cols_view(v@) =~= cols_view(orig).insert(gi, gx));
        assert(cols_view(orig).insert(gi, gx).to_multiset() == cols_view(orig).to_multiset()
            .insert(gx));
        assert forall|p: int, q: int|
            0 <= p < q < cols_view(v@).len() implies chars_lt(
            cols_view(v@)[p],
            cols_view(v@)[q],
        ) by {}
    }
}

/// Extend a sort key with the input tag columns it does not cover yet (first
/// occurrences only), appended after the existing key in alphabetical order.
/// The old key is a prefix of the result.
pub fn extend_sort_key(current: &Vec<String>, input_tags: &Vec<String>) -> (r: Vec<String>)
    ensures
        r@.len() >= current@.len(),
        forall|i: int| 0 <= i < current@.len() ==> cols_view(r@)[i] == cols_view(current@)[i],
        names_sorted(cols_view(r@).skip(current@.len() as int)),
        cols_view(r@).skip(current@.len() as int).to_multiset() == missing_cols(
            cols_view(current@),
            cols_view(input_tags@),
            input_tags@.len() as int,
        ).to_multiset(),
{
    broadcast use group_to_multiset_ensures;

    let mut missing: Vec<String> = Vec::new();
    let mut k: usize = 0;
    proof {
        assert(cols_view(missing@) =~= Seq::<Seq<char>>::empty());
        assert(missing_cols(cols_view(current@), cols_view(input_tags@), 0) =~= Seq::<
            Seq<char>,
        >::empty());
    }
    while k < input_tags.len()
        invariant
            0 <= k <= input_tags@.len(),
            names_sorted(cols_view(missing@)),
            cols_view(missing@).to_multiset() == missing_cols(
                cols_view(current@),
                cols_view(input_tags@),
                k as int,
            ).to_multiset(),
        decreases input_tags@.len() - k,
    {
        let tag = &input_tags[k];
        let in_key = has_col_exec(current, tag);
        let dup_before = has_col_prefix(input_tags, k, tag);
        let mut dup_here = false;
        let mut m: usize = 0;
        while m < missing.len()
            invariant
                0 <= m <= missing@.len(),
                tag == &input_tags@[k as int],
                dup_here == has_col(cols_view(missing@).take(m as int), input_tags@[k as int]@),
            decreases missing@.len() - m,
        {
            proof {
                assert(cols_view(missing@).take(m + 1) =~= cols_view(missing@).take(m as int).push(
                    cols_view(missing@)[m as int],
                ));
            }
            if missing[m].eq(tag) {
                dup_here = true;
                proof {
                    assert(cols_view(missing@).take(m + 1)[m as int] == input_tags@[k as int]@);
                }
            } else {
                proof {
                    if !dup_here {
                        assert forall|j: int|
                            0 <= j < m + 1 implies #[trigger] cols_view(missing@).take(m + 1)[j]
                            != input_tags@[k as int]@ by {
                            assert(cols_view(missing@).take(m + 1)[j] == cols_view(missing@)[j]);
                        }
                    }
                }
            }
            m = m + 1;
        }
        proof {
            assert(cols_view(missing@).take(missing@.len() as int) =~= cols_view(missing@));
        }
        if !in_key && !dup_before && !dup_here {
            proof {
                vstd::seq_lib::to_multiset_build(
                    missing_cols(cols_view(current@), cols_view(input_tags@), k as int),
                    input_tags@[k as int]@,
                );
            }
            insert_col_sorted(&mut missing, tag.clone());
        } else {
            proof {
                broadcast use group_to_multiset_ensures;

                if !in_key && !dup_before {
                    assert(has_col(cols_view(missing@), input_tags@[k as int]@));
                    let w = choose|j: int|
                        0 <= j < cols_view(missing@).len() && cols_view(missing@)[j]
                            == input_tags@[k as int]@;
                    assert(cols_view(missing@)[w] == input_tags@[k as int]@);
                    assert(cols_view(missing@).contains(input_tags@[k as int]@));
                    assert(cols_view(missing@).to_multiset().count(input_tags@[k as int]@) > 0);
                    assert(missing_cols(
                        cols_view(current@),
                        cols_view(input_tags@),
                        k as int,
                    ).to_multiset().count(input_tags@[k as int]@) > 0);
                    assert(missing_cols(
                        cols_view(current@),
                        cols_view(input_tags@),
                        k as int,
                    ).contains(input_tags@[k as int]@));
                    assert(has_col(
                        cols_view(input_tags@).take(k as int),
                        input_tags@[k as int]@,
                    )) by {
                        lemma_missing_cols_sub(
                            cols_view(current@),
                            cols_view(input_tags@),
                            k as int,
                            input_tags@[k as int]@,
                        );
                    }
                    assert(false);
                }
            }
        }
        k = k + 1;
    }
    proof {
        assert(cols_view(input_tags@).take(input_tags@.len() as int) =~= cols_view(input_tags@));
    }
    let mut r: Vec<String> = Vec::new();
    let mut i: usize = 0;
    while i < current.len()
        invariant
            0 <= i <= current@.len(),
            cols_view(r@) =~= cols_view(current@).take(i as int),
        decreases current@.len() - i,
    {
        proof {
            assert(cols_view(r@.push(current@[i as int])) =~= cols_view(r@).push(
                current@[i as int]@,
            ));
            assert(cols_view(current@).take(i + 1) =~= cols_view(current@).take(i as int).push(
                cols_view(current@)[i as int],
            ));
        }
        r.push(current[i].clone());
        i = i + 1;
    }
    proof {
        assert(cols_view(current@).take(current@.len() as int) =~= cols_view(current@));
    }
    let ghost gmissing = cols_view(missing@);
    let mut j: usize = 0;
    let n = missing.len();
    proof {
        assert(n == missing@.len());
    }
    while missing.len() > 0
        invariant
            0 <= j <= gmissing.len(),
            j + missing@.len() <= usize::MAX,
            cols_view(missing@) == gmissing.skip(j as int),
            cols_view(r@) =~= cols_view(current@) + gmissing.take(j as int),
        decreases missing@.len(),
    {
        let ghost before = missing@;
        let t = missing.remove(0);
        proof {
            assert(cols_view(before.remove(0)) =~= cols_view(before).drop_first());
            assert(cols_view(before).drop_first() =~= gmissing.skip(j + 1));
            assert(t == before[0]);
            assert(cols_view(before)[0] == before[0]@);
            assert(gmissing.skip(j as int)[0] == gmissing[j as int]);
            assert(t@ == gmissing[j as int]);
            assert(cols_view(r@.push(t)) =~= cols_view(r@).push(t@));
            assert(cols_view(current@) + gmissing.take(j + 1) =~= (cols_view(current@)
                + gmissing.take(j as int)).push(gmissing[j as int]));
        }
        r.push(t);
        j = j + 1;
    }
    proof {
        assert(gmissing.skip(j as int).len() == 0);
        assert(j == gmissing.len());
        assert(gmissing.take(gmissing.len() as int) =~= gmissing);
        assert(cols_view(r@).skip(current@.len() as int) =~= gmissing);
        assert forall|i2: int| 0 <= i2 < current@.len() implies cols_view(r@)[i2] == cols_view(
            current@,
        )[i2] by {}
    }
    r
}

/// A column the missing list holds occurs among the first `k` input tags.
proof fn lemma_missing_cols_sub(key: Seq<Seq<char>>, tags: Seq<Seq<char>>, k: int, c: Seq<char>)
    requires
        0 <= k <= tags.len(),
        missing_cols(key, tags, k).contains(c),
    ensures
        has_col(tags.take(k), c),
    decreases k,
{
    if k > 0 {
        let rest = missing_cols(key, tags, k - 1);
        let full = missing_cols(key, tags, k);
        let w0 = choose|j: int| 0 <= j < full.len() && #[trigger] full[j] == c;
        if !has_col(key, tags[k - 1]) && !has_col(tags.take(k - 1), tags[k - 1]) {
            assert(full == rest.push(tags[k - 1]));
            if w0 == full.len() - 1 {
                assert(tags[k - 1] == c);
                assert(tags.take(k)[k - 1] == c);
            } else {
                assert(rest[w0] == c);
                assert(rest.contains(c));
                lemma_missing_cols_sub(key, tags, k - 1, c);
                let w = choose|j: int|
                    0 <= j < tags.take(k - 1).len() && #[trigger] tags.take(k - 1)[j] == c;
                assert(tags.take(k)[w] == c);
            }
        } else {
            assert(full == rest);
            assert(rest.contains(c)) by {
                assert(rest[w0] == c);
            }
            lemma_missing_cols_sub(key, tags, k - 1, c);
            let w = choose|j: int|
                0 <= j < tags.take(k - 1).len() && #[trigger] tags.take(k - 1)[j] == c;
            assert(tags.take(k)[w] == c);
        }
    }
}

/// Decide what to persist for a partition's sort key, given the key the
/// catalog holds (if any) and the tag columns the inputs carry.
pub fn resolve_sort_key(current: Option<&Vec<String>>, input_tags: &Vec<String>) -> (r:
    SortKeyUpdate)
    ensures
        match r {
            SortKeyUpdate::Assign(key) => current is None && cols_view(key@) == cols_view(
                input_tags@,
            ),
            SortKeyUpdate::Extend(key) => current matches Some(cur) && {
                &&& key@.len() > cur@.len()
                &&& forall|i: int|
                    0 <= i < cur@.len() ==> cols_view(key@)[i] == cols_view(cur@)[i]
                &&& names_sorted(cols_view(key@).skip(cur@.len() as int))
                &&& cols_view(key@).skip(cur@.len() as int).to_multiset() == missing_cols(
                    cols_view(cur@),
                    cols_view(input_tags@),
                    input_tags@.len() as int,
                ).to_multiset()
            },
            SortKeyUpdate::Unchanged => current matches Some(cur) && missing_cols(
                cols_view(cur@),
                cols_view(input_tags@),
                input_tags@.len() as int,
            ).len() == 0,
        },
{
    match current {
        None => {
            let mut key: Vec<String> = Vec::new();
            let mut i: usize = 0;
            while i < input_tags.len()
                invariant
                    0 <= i <= input_tags@.len(),
                    cols_view(key@) =~= cols_view(input_tags@).take(i as int),
                decreases input_tags@.len() - i,
            {
                proof {
                    assert(cols_view(key@.push(input_tags@[i as int])) =~= cols_view(key@).push(
                        input_tags@[i as int]@,
                    ));
                    assert(cols_view(input_tags@).take(i + 1) =~= cols_view(input_tags@).take(
                        i as int,
                    ).push(cols_view(input_tags@)[i as int]));
                }
                key.push(input_tags[i].clone());
                i = i + 1;
            }
            proof {
                assert(cols_view(input_tags@).take(input_tags@.len() as int) =~= cols_view(
                    input_tags@,
                ));
            }
            SortKeyUpdate::Assign(key)
        },
        Some(cur) => {
            let key = extend_sort_key(cur, input_tags);
            if key.len() > cur.len() {
                SortKeyUpdate::Extend(key)
            } else {
                proof {
                    broadcast use group_to_multiset_ensures;

                    assert(cols_view(key@).skip(cur@.len() as int).len() == 0);
                    assert(missing_cols(
                        cols_view(cur@),
                        cols_view(input_tags@),
                        input_tags@.len() as int,
                    ).to_multiset().len() == 0);
                }
                SortKeyUpdate::Unchanged
            }
        },
    }
}

} // verus!
