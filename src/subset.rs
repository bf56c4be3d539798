use vstd::prelude::*;

use crate::dataset::{
    cell_at, cell_or_empty, column_index, column_position, copy_row, has_column,
    lemma_column_position, names_missing_column, DataSet, Table,
};
use crate::error::AnalysisError;

verus! {

/// The rows that `idx` names, in its order; an index past the last row is
/// skipped.
pub open spec fn pick_rows(rows: Seq<Seq<Seq<char>>>, idx: Seq<usize>) -> Seq<Seq<Seq<char>>>
    decreases idx.len(),
{
    if idx.len() == 0 {
        Seq::empty()
    } else {
        let before = pick_rows(rows, idx.drop_last());
        if (idx.last() as int) < rows.len() {
            before.push(rows[idx.last() as int])
        } else {
            before
        }
    }
}

/// The cells of `row` in the columns `positions`, in that order.
pub open spec fn project(row: Seq<Seq<char>>, positions: Seq<usize>) -> Seq<Seq<char>> {
    positions.map_values(|p: usize| cell_at(row, p as int))
}

/// All row indices of a table with `n` rows, in order.
pub open spec fn all_indices(n: nat) -> Seq<usize> {
    Seq::new(n, |i: int| i as usize)
}

/// The requested row indices, or all of them when none are given.
pub open spec fn requested_rows(t: Table, row_indices: Option<Vec<usize>>) -> Seq<usize> {
    match row_indices {
        Some(v) => v@,
        None => all_indices(t.rows.len()),
    }
}

/// The requested column names, or all headers when none are given.
pub open spec fn requested_headers(t: Table, column_names: Option<Vec<String>>) -> Seq<Seq<char>> {
    match column_names {
        Some(v) => v.deep_view(),
        None => t.headers,
    }
}

/// Whether every requested column name is a header of `t`.
pub open spec fn all_columns_present(t: Table, column_names: Option<Vec<String>>) -> bool {
    match column_names {
        Some(v) => forall|k: int| 0 <= k < v.len() ==> has_column(t.headers, #[trigger] v[k]@),
        None => true,
    }
}

/// The columns that the requested names select: the first match of each name,
/// or every column in header order when none are given.
pub open spec fn requested_positions(t: Table, column_names: Option<Vec<String>>) -> Seq<usize> {
    match column_names {
        Some(v) => v.deep_view().map_values(|n: Seq<char>| column_position(t.headers, n) as usize),
        None => all_indices(t.headers.len()),
    }
}

/// The table that a subset of `t` is: the requested rows that exist, each
/// restricted to the requested columns.
pub open spec fn subset_of(
    t: Table,
    row_indices: Option<Vec<usize>>,
    column_names: Option<Vec<String>>,
) -> Table {
    Table {
        headers: requested_headers(t, column_names),
        rows: pick_rows(t.rows, requested_rows(t, row_indices)).map_values(
            |row: Seq<Seq<char>>| project(row, requested_positions(t, column_names)),
        ),
        label: t.label + "_subset"@,
    }
}

/// Whether every row holds exactly one cell per header.
pub open spec fn is_rectangular(t: Table) -> bool {
    forall|i: int| 0 <= i < t.rows.len() ==> #[trigger] t.rows[i].len() == t.headers.len()
}

/// Whether `e` names the first of the requested columns that is missing.
pub open spec fn names_first_missing(t: Table, names: Seq<String>, e: AnalysisError) -> bool {
    exists|k: int|
        0 <= k < names.len() && !has_column(t.headers, names[k]@) && (forall|j: int|
            0 <= j < k ==> has_column(t.headers, #[trigger] names[j]@)) && names_missing_column(
            e,
            names[k]@,
        )
}

proof fn lemma_pick_all(rows: Seq<Seq<Seq<char>>>, k: nat)
    requires
        k <= rows.len() <= usize::MAX,
    ensures
        pick_rows(rows, all_indices(k)) == rows.take(k as int),
    decreases k,
{
    if k > 0 {
        let prev = (k - 1) as nat;
        lemma_pick_all(rows, prev);
        assert(all_indices(k).drop_last() =~= all_indices(prev));
        assert(all_indices(k).last() == prev as usize);
        assert(pick_rows(rows, all_indices(k)) == pick_rows(rows, all_indices(prev)).push(
            rows[prev as int],
        ));
        assert(rows.take(k as int) =~= rows.take(k - 1).push(rows[k - 1]));
    } else {
        assert(rows.take(0) =~= Seq::<Seq<Seq<char>>>::empty());
    }
}

/// Copies of the cells of `row` in the columns `positions`.
fn project_row(row: &Vec<String>, positions: &Vec<usize>) -> (r: Vec<String>)
    ensures
        r.deep_view() == project(row.deep_view(), positions@),
{
    let mut out: Vec<String> = Vec::new();
    let mut k: usize = 0;
    while k < positions.len()
        invariant
            k <= positions.len(),
            out.len() == k,
            forall|j: int| 0 <= j < k ==> out@[j]@ == cell_at(row.deep_view(), positions@[j] as int),
        decreases positions.len() - k,
    {
        let cell = cell_or_empty(row, positions[k]);
        out.push(cell);
        k = k + 1;
    }
    assert(out.deep_view() =~= project(row.deep_view(), positions@));
    out
}

/// A new dataset made of the requested rows (all, in order, when `None`) and
/// the requested columns (all, in header order, when `None`). Row indices past
/// the end are skipped; a column name that is not a header is an error.
pub fn extract_subset(
    dataset: &DataSet,
    row_indices: Option<Vec<usize>>,
    column_names: Option<Vec<String>>,
) -> (r: Result<DataSet, AnalysisError>)
    ensures
        match r {
            Ok(out) => all_columns_present(dataset@, column_names) && out@ == subset_of(
                dataset@,
                row_indices,
                column_names,
            ),
            Err(e) => match column_names {
                Some(v) => !all_columns_present(dataset@, column_names) && names_first_missing(
                    dataset@,
                    v@,
                    e,
                ),
                None => false,
            },
        },
        row_indices is None && column_names is None && is_rectangular(dataset@) ==> r is Ok
            && r->Ok_0@.headers == dataset@.headers && r->Ok_0@.rows == dataset@.rows,
{
    let ghost t = dataset@;
    let ghost positions_spec = requested_positions(t, column_names);
    let ghost names = column_names;
    let (new_headers, positions) = match column_names {
        Some(cols) => {
            let mut positions: Vec<usize> = Vec::new();
            let mut k: usize = 0;
            while k < cols.len()
                invariant
                    k <= cols.len(),
                    t == dataset@,
                    names == Some(cols),
                    names == column_names,
                    positions.len() == k,
                    forall|j: int| 0 <= j < k ==> has_column(t.headers, #[trigger] cols@[j]@),
                    forall|j: int|
                        0 <= j < k ==> positions@[j] as int == column_position(
                            t.headers,
                            #[trigger] cols@[j]@,
                        ),
                decreases cols.len() - k,
            {
                proof {
                    lemma_column_position(t.headers, cols@[k as int]@);
                }
                match column_index(&dataset.headers, cols[k].as_str()) {
                    Some(c) => {
                        positions.push(c);
                    },
                    None => {
                        let e = AnalysisError::ColumnNotFound(cols[k].clone());
                        assert(names_missing_column(e, cols@[k as int]@));
                        assert(names_first_missing(t, cols@, e));
                        assert(!has_column(t.headers, cols[k as int]@));
                        assert(!has_column(t.headers, cols@[k as int]@));
                        assert(!all_columns_present(t, names)) by {
                            if all_columns_present(t, names) {
                                assert(names->Some_0 == cols);
                                assert(has_column(t.headers, cols[k as int]@));
                            }
                        }
                        return Err(e);
                    },
                }
                k = k + 1;
            }
            assert(positions@ =~= positions_spec);
            (cols, positions)
        },
        None => {
            let mut positions: Vec<usize> = Vec::new();
            let mut k: usize = 0;
            while k < dataset.headers.len()
                invariant
                    k <= dataset.headers.len(),
                    positions@ == all_indices(k as nat),
                decreases dataset.headers.len() - k,
            {
                positions.push(k);
                k = k + 1;
                assert(positions@ =~= all_indices(k as nat));
            }
            let headers = copy_row(&dataset.headers);
            assert(headers.deep_view() =~= dataset.headers.deep_view());
            (headers, positions)
        },
    };
    assert(positions@ == positions_spec);
    let ghost wanted = requested_rows(t, row_indices);
    let selected: Vec<usize> = match row_indices {
        Some(rows) => rows,
        None => {
            let mut all: Vec<usize> = Vec::new();
            let mut i: usize = 0;
            while i < dataset.data.len()
                invariant
                    i <= dataset.data.len(),
                    all@ == all_indices(i as nat),
                decreases dataset.data.len() - i,
            {
                all.push(i);
                i = i + 1;
                assert(all@ =~= all_indices(i as nat));
            }
            all
        },
    };
    assert(selected@ == wanted);
    let ghost proj = |row: Seq<Seq<char>>| project(row, positions_spec);
    let mut new_data: Vec<Vec<String>> = Vec::new();
    let mut i: usize = 0;
    while i < selected.len()
        invariant
            i <= selected.len(),
            t == dataset@,
            selected@ == wanted,
            positions@ == positions_spec,
            proj == (|row: Seq<Seq<char>>| project(row, positions_spec)),
            new_data.deep_view() == pick_rows(t.rows, wanted.take(i as int)).map_values(proj),
        decreases selected.len() - i,
    {
        let idx = selected[i];
        let ghost before = pick_rows(t.rows, wanted.take(i as int));
        assert(wanted.take(i + 1).drop_last() =~= wanted.take(i as int));
        assert(wanted.take(i + 1).last() == idx);
        if idx < dataset.data.len() {
            let row = project_row(&dataset.data[idx], &positions);
            new_data.push(row);
            assert(pick_rows(t.rows, wanted.take(i + 1)) == before.push(t.rows[idx as int]));
            assert(before.push(t.rows[idx as int]).map_values(proj) =~= before.map_values(
                proj,
            ).push(proj(t.rows[idx as int])));
        } else {
            assert(pick_rows(t.rows, wanted.take(i + 1)) == before);
        }
        i = i + 1;
        assert(new_data.deep_view() =~= pick_rows(t.rows, wanted.take(i as int)).map_values(proj));
    }
    assert(wanted.take(selected.len() as int) =~= wanted);
    let mut label = dataset.file_path.clone();
    label.append("_subset");
    let out = DataSet::new(new_headers, new_data, label);
    assert(out@.rows =~= subset_of(t, row_indices, column_names).rows);
    proof {
        if row_indices is None && column_names is None && is_rectangular(t) {
            lemma_pick_all(t.rows, t.rows.len());
            assert(t.rows.take(t.rows.len() as int) =~= t.rows);
            assert forall|i: int| 0 <= i < t.rows.len() implies #[trigger] project(
                t.rows[i],
                positions_spec,
            ) == t.rows[i] by {
                assert(project(t.rows[i], positions_spec) =~= t.rows[i]);
            }
            assert(out@.rows =~= t.rows);
        }
    }
    Ok(out)
}

} // verus!
