use vstd::prelude::*;

use rand::seq::SliceRandom;

use crate::analyzer::DataAnalyzer;
use crate::dataset::{
    cell_at, column_position, column_values, copy_row, has_column, names_missing_column, DataSet,
    Table,
};
use crate::error::AnalysisError;
use crate::frequency::{keys_of, texts};
use crate::subset::all_indices;
use crate::text::{decimal, decimal_text};

verus! {

broadcast use vstd::seq_lib::group_to_multiset_ensures;

/// Whether `picked` is the rows of `rows` at the positions `idx`: one distinct
/// position for each picked row.
pub open spec fn draws(
    rows: Seq<Seq<Seq<char>>>,
    picked: Seq<Seq<Seq<char>>>,
    idx: Seq<usize>,
) -> bool {
    &&& idx.len() == picked.len()
    &&& idx.no_duplicates()
    &&& forall|k: int|
        0 <= k < idx.len() ==> (#[trigger] idx[k] as int) < rows.len() && picked[k]
            == rows[idx[k] as int]
}

/// Whether `picked` is made of rows of `rows`, no row taken twice.
pub open spec fn is_draw_from(rows: Seq<Seq<Seq<char>>>, picked: Seq<Seq<Seq<char>>>) -> bool {
    exists|idx: Seq<usize>| draws(rows, picked, idx)
}

/// The test that position `i` holds `v` in the column `col`.
pub open spec fn holds_value(col: Seq<Seq<char>>, v: Seq<char>) -> spec_fn(usize) -> bool {
    |i: usize| (i as int) < col.len() && col[i as int] == v
}

/// The positions of `col` that hold `v`, in increasing order.
pub open spec fn positions_with(col: Seq<Seq<char>>, v: Seq<char>) -> Seq<usize> {
    all_indices(col.len()).filter(holds_value(col, v))
}

/// How many of the positions `idx` hold `v` in the column `col`.
pub open spec fn count_with(col: Seq<Seq<char>>, idx: Seq<usize>, v: Seq<char>) -> nat {
    idx.filter(holds_value(col, v)).len()
}

/// The share of a stratified sample of `size` rows that each stratum of the
/// column `col` gives: `size` over the number of distinct values.
pub open spec fn stratum_quota(col: Seq<Seq<char>>, size: nat) -> nat {
    if col.to_set().len() == 0 {
        0
    } else {
        size / col.to_set().len()
    }
}

/// Whether `picked` is a stratified draw from `t` by the column `c`: distinct
/// rows of `t`, and from each value of the column exactly the quota of rows, or
/// all of them when it has fewer.
pub open spec fn is_stratified_draw(t: Table, c: int, size: nat, picked: Seq<Seq<Seq<char>>>) -> bool {
    let col = column_values(t, c);
    exists|idx: Seq<usize>|
        draws(t.rows, picked, idx) && forall|v: Seq<char>| #[trigger]
            count_with(col, idx, v) == vstd::math::min(
                stratum_quota(col, size) as int,
                positions_with(col, v).len() as int,
            )
}

proof fn lemma_filter_all(s: Seq<usize>, pred: spec_fn(usize) -> bool)
    requires
        forall|k: int| 0 <= k < s.len() ==> pred(#[trigger] s[k]),
    ensures
        s.filter(pred) == s,
    decreases s.len(),
{
    if s.len() > 0 {
        lemma_filter_all(s.drop_last(), pred);
        s.drop_last().lemma_filter_push(s.last(), pred);
        assert(s.drop_last().push(s.last()) =~= s);
    } else {
        assert(s.filter(pred) =~= s) by {
            reveal(Seq::filter);
        }
    }
}

proof fn lemma_filter_none(s: Seq<usize>, pred: spec_fn(usize) -> bool)
    requires
        forall|k: int| 0 <= k < s.len() ==> !pred(#[trigger] s[k]),
    ensures
        s.filter(pred).len() == 0,
{
    assert(s.all(|x: usize| !pred(x)));
    s.lemma_all_neg_filter_empty(pred);
}

/// Relies on rand's `SliceRandom::shuffle` with the thread-local generator:
/// it only swaps elements, so the result is a permutation of the input.
#[verifier::external_body]
fn shuffle_indices(v: &mut Vec<usize>)
    ensures
        final(v)@.len() == old(v)@.len(),
        final(v)@.to_multiset() == old(v)@.to_multiset(),
{
    v.shuffle(&mut rand::thread_rng());
}

/// The row positions `0, 1, ..., n - 1`.
fn index_range(n: usize) -> (r: Vec<usize>)
    ensures
        r@.len() == n,
        forall|k: int| 0 <= k < n ==> #[trigger] r@[k] == k,
{
    let mut r: Vec<usize> = Vec::new();
    let mut i: usize = 0;
    while i < n
        invariant
            i <= n,
            r@.len() == i,
            forall|k: int| 0 <= k < i ==> #[trigger] r@[k] == k,
        decreases n - i,
    {
        r.push(i);
        i = i + 1;
    }
    r
}

/// After a shuffle of distinct positions below `n`, they are still distinct
/// and below `n`.
proof fn lemma_permuted_positions(before: Seq<usize>, after: Seq<usize>, n: nat)
    requires
        before.no_duplicates(),
        forall|k: int| 0 <= k < before.len() ==> (#[trigger] before[k] as int) < n,
        after.to_multiset() == before.to_multiset(),
    ensures
        after.no_duplicates(),
        forall|k: int| 0 <= k < after.len() ==> (#[trigger] after[k] as int) < n,
{
    before.lemma_multiset_has_no_duplicates();
    after.lemma_multiset_has_no_duplicates_conv();
    assert forall|k: int| 0 <= k < after.len() implies (#[trigger] after[k] as int) < n by {
        assert(after.to_multiset().contains(after[k]));
        assert(before.contains(after[k]));
    }
}

/// Copies of the rows of `dataset` at the positions `idx`, in that order.
fn rows_at(dataset: &DataSet, idx: &Vec<usize>) -> (r: Vec<Vec<String>>)
    requires
        forall|k: int| 0 <= k < idx@.len() ==> (#[trigger] idx@[k] as int) < dataset.data@.len(),
    ensures
        r.deep_view().len() == idx@.len(),
        forall|k: int|
            0 <= k < idx@.len() ==> #[trigger] r.deep_view()[k] == dataset@.rows[idx@[k] as int],
{
    let mut out: Vec<Vec<String>> = Vec::new();
    let mut k: usize = 0;
    while k < idx.len()
        invariant
            k <= idx.len(),
            out@.len() == k,
            forall|j: int| 0 <= j < idx@.len() ==> (#[trigger] idx@[j] as int) < dataset.data@.len(),
            forall|j: int|
                0 <= j < k ==> #[trigger] out@[j].deep_view() == dataset@.rows[idx@[j] as int],
        decreases idx.len() - k,
    {
        let row = copy_row(&dataset.data[idx[k]]);
        assert(row.deep_view() =~= dataset.data[idx@[k as int] as int].deep_view());
        out.push(row);
        k = k + 1;
    }
    assert forall|j: int| 0 <= j < idx@.len() implies #[trigger] out.deep_view()[j]
        == dataset@.rows[idx@[j] as int] by {
        assert(out@[j].deep_view() == dataset@.rows[idx@[j] as int]);
    }
    out
}

/// `base` followed by `tag` and the decimal digits of `n`.
fn tagged_label(base: &String, tag: &str, n: usize) -> (r: String)
    ensures
        r@ == base@ + tag@ + decimal_text(n as nat),
{
    let mut label = base.clone();
    label.append(tag);
    let digits = decimal(n);
    label.append(digits.as_str());
    label
}

impl DataAnalyzer {
    /// `sample_size` rows drawn uniformly without replacement, in the order in
    /// which they were drawn.
    pub fn random_sample(&self, dataset: &DataSet, sample_size: usize) -> (r: Result<
        DataSet,
        AnalysisError,
    >)
        ensures
            match r {
                Ok(s) => {
                    &&& sample_size <= dataset@.rows.len()
                    &&& s@.headers == dataset@.headers
                    &&& s@.rows.len() == sample_size
                    &&& is_draw_from(dataset@.rows, s@.rows)
                    &&& s@.label == dataset@.label + "_sample_"@ + decimal_text(sample_size as nat)
                },
                Err(e) => sample_size > dataset@.rows.len() && e == AnalysisError::SampleSizeTooLarge,
            },
    {
        if sample_size > dataset.row_count() {
            return Err(AnalysisError::SampleSizeTooLarge);
        }
        let mut indices = index_range(dataset.row_count());
        let ghost before = indices@;
        assert(before.no_duplicates());
        shuffle_indices(&mut indices);
        proof {
            lemma_permuted_positions(before, indices@, dataset@.rows.len());
        }
        indices.truncate(sample_size);
        let data = rows_at(dataset, &indices);
        let headers = copy_row(&dataset.headers);
        let label = tagged_label(&dataset.file_path, "_sample_", sample_size);
        let out = DataSet::new(headers, data, label);
        assert(out@.headers =~= dataset@.headers);
        assert(draws(dataset@.rows, out@.rows, indices@));
        Ok(out)
    }

    /// A sample stratified by the column `strata_column`: each distinct value
    /// of the column is a stratum, and each stratum gives
    /// `sample_size / number of strata` of its rows drawn at random, or all of
    /// them when it has fewer. Strata follow each other in the order in which
    /// their values first occur.
    pub fn stratified_sample(
        &self,
        dataset: &DataSet,
        strata_column: &str,
        sample_size: usize,
    ) -> (r: Result<DataSet, AnalysisError>)
        ensures
            match r {
                Ok(s) => {
                    &&& has_column(dataset@.headers, strata_column@)
                    &&& s@.headers == dataset@.headers
                    &&& s@.rows.len() <= sample_size
                    &&& is_draw_from(dataset@.rows, s@.rows)
                    &&& is_stratified_draw(
                        dataset@,
                        column_position(dataset@.headers, strata_column@),
                        sample_size as nat,
                        s@.rows,
                    )
                    &&& forall|k: int|
                        0 <= k < s@.rows.len() ==> column_values(
                            dataset@,
                            column_position(dataset@.headers, strata_column@),
                        ).contains(
                            cell_at(
                                #[trigger] s@.rows[k],
                                column_position(dataset@.headers, strata_column@),
                            ),
                        )
                    &&& s@.label == dataset@.label + "_stratified_sample_"@ + decimal_text(
                        sample_size as nat,
                    )
                },
                Err(e) => !has_column(dataset@.headers, strata_column@) && names_missing_column(
                    e,
                    strata_column@,
                ),
            },
    {
        let column = dataset.get_column(strata_column)?;
        let ghost col = column.deep_view();
        let ghost n = col.len();
        assert(texts(column@) =~= col);
        let table = self.calculate_frequency(column.as_slice());
        let ghost keys = keys_of(table.frequencies@);
        let strata = table.frequencies.len();
        let quota: usize = if strata == 0 {
            0
        } else {
            sample_size / strata
        };
        assert(strata * quota <= sample_size) by (nonlinear_arith)
            requires
                quota == (if strata == 0 {
                    0
                } else {
                    sample_size / strata
                }),
        ;
        let mut picked: Vec<usize> = Vec::new();
        let mut g: usize = 0;
        proof {
            assert forall|v: Seq<char>| #[trigger] count_with(col, picked@, v) == 0 by {
                assert(picked@.filter(holds_value(col, v)) =~= Seq::<usize>::empty()) by {
                    reveal(Seq::filter);
                }
            }
        }
        while g < strata
            invariant
                g <= strata,
                strata == table.frequencies@.len(),
                keys == keys_of(table.frequencies@),
                keys.no_duplicates(),
                col == column.deep_view(),
                n == col.len(),
                n == dataset@.rows.len(),
                strata * quota <= sample_size,
                picked@.no_duplicates(),
                picked@.len() <= g * quota,
                forall|j: int|
                    0 <= j < picked@.len() ==> (#[trigger] picked@[j] as int) < n && keys.take(
                        g as int,
                    ).contains(col[picked@[j] as int]),
                forall|v: Seq<char>| #[trigger]
                    count_with(col, picked@, v) == if keys.take(g as int).contains(v) {
                        vstd::math::min(quota as int, positions_with(col, v).len() as int)
                    } else {
                        0
                    },
            decreases strata - g,
        {
            let key = &table.frequencies[g].0;
            let mut members = members_of(&column, key);
            assert(key@ == keys[g as int]);
            let ghost before = members@;
            shuffle_indices(&mut members);
            proof {
                lemma_permuted_positions(before, members@, n);
                assert forall|j: int| 0 <= j < members@.len() implies col[(
                #[trigger] members@[j]) as int] == keys[g as int] by {
                    assert(members@.to_multiset().contains(members@[j]));
                    assert(before.contains(members@[j]));
                }
            }
            let take = if quota < members.len() {
                quota
            } else {
                members.len()
            };
            let ghost start = picked@;
            let mut m: usize = 0;
            while m < take
                invariant
                    m <= take <= members@.len(),
                    take <= quota,
                    g < strata,
                    keys.no_duplicates(),
                    keys.len() == strata,
                    n == col.len(),
                    start.len() <= g * quota,
                    picked@ == start + members@.take(m as int),
                    take == vstd::math::min(quota as int, members@.len() as int),
                    members@.len() == before.len(),
                    before == positions_with(col, keys[g as int]),
                    forall|v: Seq<char>| #[trigger]
                        count_with(col, start, v) == if keys.take(g as int).contains(v) {
                            vstd::math::min(quota as int, positions_with(col, v).len() as int)
                        } else {
                            0
                        },
                    start.no_duplicates(),
                    members@.no_duplicates(),
                    forall|j: int|
                        0 <= j < start.len() ==> (#[trigger] start[j] as int) < n && keys.take(
                            g as int,
                        ).contains(col[start[j] as int]),
                    forall|j: int|
                        0 <= j < members@.len() ==> (#[trigger] members@[j] as int) < n
                            && col[members@[j] as int] == keys[g as int],
                decreases take - m,
            {
                picked.push(members[m]);
                m = m + 1;
                assert(picked@ =~= start + members@.take(m as int));
            }
            proof {
                let added = members@.take(take as int);
                assert forall|a: int, b: int|
                    0 <= a < start.len() && 0 <= b < added.len() implies start[a] != added[b] by {
                    let ka = choose|x: int|
                        0 <= x < g && keys.take(g as int)[x] == col[start[a] as int];
                    if start[a] == added[b] {
                        assert(keys[ka] == keys[g as int]);
                    }
                }
                assert(picked@.no_duplicates()) by {
                    assert forall|a: int, b: int|
                        0 <= a < picked@.len() && 0 <= b < picked@.len() && a != b implies picked@[a]
                        != picked@[b] by {
                        if a >= start.len() && b >= start.len() {
                            assert(added[a - start.len()] == members@[a - start.len()]);
                            assert(added[b - start.len()] == members@[b - start.len()]);
                        } else if a < start.len() && b >= start.len() {
                            assert(picked@[b] == added[b - start.len()]);
                        } else if a >= start.len() && b < start.len() {
                            assert(picked@[a] == added[a - start.len()]);
                        }
                    }
                }
                assert(picked@.len() <= (g + 1) * quota) by (nonlinear_arith)
                    requires
                        picked@.len() == start.len() + take,
                        start.len() <= g * quota,
                        take <= quota,
                ;
                assert forall|v: Seq<char>| #[trigger]
                    count_with(col, picked@, v) == if keys.take(g + 1).contains(v) {
                        vstd::math::min(quota as int, positions_with(col, v).len() as int)
                    } else {
                        0
                    } by {
                    let hv = holds_value(col, v);
                    assert(picked@ =~= start + added);
                    Seq::filter_distributes_over_add(start, added, hv);
                    assert(count_with(col, picked@, v) == count_with(col, start, v) + count_with(
                        col,
                        added,
                        v,
                    ));
                    assert(added.len() == take);
                    assert forall|k: int| 0 <= k < added.len() implies (#[trigger] added[k] as int)
                        < n && col[added[k] as int] == keys[g as int] by {
                        assert(added[k] == members@[k]);
                    }
                    assert(keys.take(g + 1) =~= keys.take(g as int).push(keys[g as int]));
                    if v == keys[g as int] {
                        assert forall|k: int| 0 <= k < added.len() implies hv(
                            #[trigger] added[k],
                        ) by {
                            assert((added[k] as int) < n && col[added[k] as int] == keys[g as int]);
                        }
                        lemma_filter_all(added, hv);
                        assert(count_with(col, added, v) == take);
                        assert(keys.take(g + 1)[g as int] == v);
                        assert(!keys.take(g as int).contains(v)) by {
                            if keys.take(g as int).contains(v) {
                                let x = choose|x: int| 0 <= x < g && keys.take(g as int)[x] == v;
                                assert(keys[x] == keys[g as int]);
                            }
                        }
                        assert(members@.len() == before.len());
                        assert(before == positions_with(col, v));
                    } else {
                        assert forall|k: int| 0 <= k < added.len() implies !hv(
                            #[trigger] added[k],
                        ) by {
                            assert((added[k] as int) < n && col[added[k] as int] == keys[g as int]);
                        }
                        lemma_filter_none(added, hv);
                        assert(count_with(col, added, v) == 0);
                        assert(keys.take(g + 1).contains(v) == keys.take(g as int).contains(v)) by {
                            let next = keys.take(g + 1);
                            if next.contains(v) {
                                let x = choose|x: int| 0 <= x < next.len() && next[x] == v;
                                assert(keys.take(g as int)[x] == v);
                            }
                            if keys.take(g as int).contains(v) {
                                let x = choose|x: int| 0 <= x < g && keys.take(g as int)[x] == v;
                                assert(keys.take(g + 1)[x] == v);
                            }
                        }
                    }
                }
                assert forall|j: int| 0 <= j < picked@.len() implies (
                #[trigger] picked@[j] as int) < n && keys.take(g + 1).contains(
                    col[picked@[j] as int],
                ) by {
                    if j < start.len() {
                        let x = choose|x: int|
                            0 <= x < g && keys.take(g as int)[x] == col[start[j] as int];
                        assert(keys.take(g + 1)[x] == col[picked@[j] as int]);
                    } else {
                        assert(picked@[j] == members@[j - start.len()]);
                        assert(keys.take(g + 1)[g as int] == col[picked@[j] as int]);
                    }
                }
            }
            g = g + 1;
        }
        assert(picked@.len() <= sample_size) by (nonlinear_arith)
            requires
                picked@.len() <= g * quota,
                g == strata,
                strata * quota <= sample_size,
        ;
        proof {
            assert(keys.take(strata as int) =~= keys);
            assert(keys.to_set() =~= col.to_set()) by {
                assert forall|v: Seq<char>| keys.to_set().contains(v) implies col.to_set().contains(
                    v,
                ) by {
                    let x = choose|x: int| 0 <= x < keys.len() && keys[x] == v;
                    assert(table.frequencies@[x].0@ == v);
                    assert(col.contains(table.frequencies@[x].0@));
                }
                assert forall|v: Seq<char>| col.to_set().contains(v) implies keys.to_set().contains(
                    v,
                ) by {
                    assert(col.contains(v));
                }
            }
            keys.unique_seq_to_set();
            assert(quota == stratum_quota(col, sample_size as nat));
            assert forall|v: Seq<char>| #[trigger]
                count_with(col, picked@, v) == vstd::math::min(
                    stratum_quota(col, sample_size as nat) as int,
                    positions_with(col, v).len() as int,
                ) by {
                if !keys.contains(v) {
                    assert forall|k: int| 0 <= k < all_indices(n).len() implies !holds_value(col, v)(
                        #[trigger] all_indices(n)[k],
                    ) by {
                        assert(col.contains(col[k]));
                    }
                    lemma_filter_none(all_indices(n), holds_value(col, v));
                }
            }
        }
        let data = rows_at(dataset, &picked);
        let headers = copy_row(&dataset.headers);
        let label = tagged_label(&dataset.file_path, "_stratified_sample_", sample_size);
        let out = DataSet::new(headers, data, label);
        assert(out@.headers =~= dataset@.headers);
        assert(draws(dataset@.rows, out@.rows, picked@));
        proof {
            let c = column_position(dataset@.headers, strata_column@);
            assert forall|k: int| 0 <= k < out@.rows.len() implies column_values(dataset@, c).contains(
                cell_at(#[trigger] out@.rows[k], c),
            ) by {
                assert(out@.rows[k] == dataset@.rows[picked@[k] as int]);
                assert(column_values(dataset@, c)[picked@[k] as int] == cell_at(out@.rows[k], c));
            }
        }
        Ok(out)
    }
}

/// The positions, in increasing order, whose cell in `column` is `key`.
fn members_of(column: &Vec<String>, key: &String) -> (r: Vec<usize>)
    ensures
        r@.no_duplicates(),
        forall|j: int|
            0 <= j < r@.len() ==> (#[trigger] r@[j] as int) < column@.len() && column@[r@[j] as int]@
                == key@,
        forall|i: int| 0 <= i < column@.len() && column@[i]@ == key@ ==> r@.contains(i as usize),
        r@ == positions_with(column.deep_view(), key@),
{
    let ghost col = column.deep_view();
    let mut r: Vec<usize> = Vec::new();
    let mut i: usize = 0;
    while i < column.len()
        invariant
            i <= column.len(),
            r@.no_duplicates(),
            forall|j: int|
                0 <= j < r@.len() ==> (#[trigger] r@[j] as int) < i && column@[r@[j] as int]@
                    == key@,
            forall|k: int| 0 <= k < i && column@[k]@ == key@ ==> r@.contains(k as usize),
            col == column.deep_view(),
            r@ == all_indices(i as nat).filter(holds_value(col, key@)),
        decreases column.len() - i,
    {
        proof {
            assert(all_indices((i + 1) as nat) =~= all_indices(i as nat).push(i));
            all_indices(i as nat).lemma_filter_push(i, holds_value(col, key@));
        }
        if column[i] == *key {
            let ghost old_r = r@;
            r.push(i);
            assert forall|k: int| 0 <= k < i + 1 && column@[k]@ == key@ implies r@.contains(
                k as usize,
            ) by {
                if k < i {
                    let x = choose|x: int| 0 <= x < old_r.len() && old_r[x] == k as usize;
                    assert(r@[x] == k as usize);
                } else {
                    assert(r@[old_r.len() as int] == k as usize);
                }
            }
        }
        i = i + 1;
    }
    r
}

} // verus!
