use vstd::prelude::*;

use crate::error::AnalysisError;

verus! {

/// The mathematical content of a [`DataSet`]: header names, rows of cells,
/// and the label that says where the data came from.
pub ghost struct Table {
    pub headers: Seq<Seq<char>>,
    pub rows: Seq<Seq<Seq<char>>>,
    pub label: Seq<char>,
}

/// A table of string cells with named columns. Rows are aligned with the
/// headers by position; a row shorter than the headers reads as empty cells.
#[derive(Debug, Clone)]
pub struct DataSet {
    pub headers: Vec<String>,
    pub data: Vec<Vec<String>>,
    pub file_path: String,
}

/// The cell of `row` in column `c`; a missing cell reads as the empty string.
pub open spec fn cell_at(row: Seq<Seq<char>>, c: int) -> Seq<char> {
    if 0 <= c < row.len() {
        row[c]
    } else {
        Seq::empty()
    }
}

/// The first position at or after `i` whose header is `name`, or the number
/// of headers when there is none.
pub open spec fn position_from(headers: Seq<Seq<char>>, name: Seq<char>, i: int) -> int
    decreases headers.len() - i,
{
    if i < 0 || i >= headers.len() {
        headers.len() as int
    } else if headers[i] == name {
        i
    } else {
        position_from(headers, name, i + 1)
    }
}

/// The column that `name` selects: the first header equal to it, or the number
/// of headers when no header is.
pub open spec fn column_position(headers: Seq<Seq<char>>, name: Seq<char>) -> int {
    position_from(headers, name, 0)
}

/// Whether some header is `name`.
pub open spec fn has_column(headers: Seq<Seq<char>>, name: Seq<char>) -> bool {
    exists|j: int| 0 <= j < headers.len() && headers[j] == name
}

/// The cells of column `c`, one for each row.
pub open spec fn column_values(t: Table, c: int) -> Seq<Seq<char>> {
    t.rows.map_values(|row: Seq<Seq<char>>| cell_at(row, c))
}

/// The error that names a missing column.
pub open spec fn names_missing_column(e: AnalysisError, name: Seq<char>) -> bool {
    match e {
        AnalysisError::ColumnNotFound(n) => n@ == name,
        _ => false,
    }
}

proof fn lemma_position_from(headers: Seq<Seq<char>>, name: Seq<char>, i: int)
    requires
        0 <= i <= headers.len(),
    ensures
        i <= position_from(headers, name, i) <= headers.len(),
        position_from(headers, name, i) < headers.len() ==> headers[position_from(
            headers,
            name,
            i,
        )] == name,
        forall|j: int| i <= j < position_from(headers, name, i) ==> headers[j] != name,
    decreases headers.len() - i,
{
    if i < headers.len() && headers[i] != name {
        lemma_position_from(headers, name, i + 1);
    }
}

/// The column that `name` selects is the first header equal to it, and it lies
/// past the last header exactly when no header is `name`.
pub proof fn lemma_column_position(headers: Seq<Seq<char>>, name: Seq<char>)
    ensures
        0 <= column_position(headers, name) <= headers.len(),
        column_position(headers, name) < headers.len() ==> headers[column_position(
            headers,
            name,
        )] == name,
        forall|j: int| 0 <= j < column_position(headers, name) ==> headers[j] != name,
        has_column(headers, name) <==> column_position(headers, name) < headers.len(),
{
    lemma_position_from(headers, name, 0);
}

/// Position of the first header equal to `name`, if any.
pub fn column_index(headers: &Vec<String>, name: &str) -> (r: Option<usize>)
    ensures
        match r {
            Some(c) => c == column_position(headers.deep_view(), name@) && c < headers.len(),
            None => column_position(headers.deep_view(), name@) == headers.len(),
        },
{
    let ghost h = headers.deep_view();
    proof {
        lemma_column_position(h, name@);
    }
    let key: String = name.to_owned();
    let mut i: usize = 0;
    while i < headers.len()
        invariant
            0 <= i <= headers.len(),
            h == headers.deep_view(),
            key@ == name@,
            position_from(h, name@, 0) == position_from(h, name@, i as int),
        decreases headers.len() - i,
    {
        if headers[i] == key {
            return Some(i);
        }
        i = i + 1;
    }
    None
}

/// The cell of `row` in column `c`, or an empty string past the row's end.
pub fn cell_or_empty(row: &Vec<String>, c: usize) -> (r: String)
    ensures
        r@ == cell_at(row.deep_view(), c as int),
{
    if c < row.len() {
        row[c].clone()
    } else {
        String::new()
    }
}

/// A copy of `row`, cell for cell.
pub fn copy_row(row: &Vec<String>) -> (r: Vec<String>)
    ensures
        r@ == row@,
{
    let mut out: Vec<String> = Vec::new();
    let mut i: usize = 0;
    while i < row.len()
        invariant
            i <= row.len(),
            out@ == row@.take(i as int),
        decreases row.len() - i,
    {
        out.push(row[i].clone());
        i = i + 1;
        assert(out@ =~= row@.take(i as int));
    }
    assert(out@ =~= row@);
    out
}

impl View for DataSet {
    type V = Table;

    open spec fn view(&self) -> Table {
        Table {
            headers: self.headers.deep_view(),
            rows: self.data.deep_view(),
            label: self.file_path@,
        }
    }
}

impl DataSet {
    pub fn new(headers: Vec<String>, data: Vec<Vec<String>>, file_path: String) -> (r: Self)
        ensures
            r.headers == headers,
            r.data == data,
            r.file_path == file_path,
    {
        DataSet { headers, data, file_path }
    }

    pub fn row_count(&self) -> (r: usize)
        ensures
            r == self@.rows.len(),
    {
        self.data.len()
    }

    pub fn column_count(&self) -> (r: usize)
        ensures
            r == self@.headers.len(),
    {
        self.headers.len()
    }

    /// The cells of the first column named `column_name`, one for each row.
    pub fn get_column(&self, column_name: &str) -> (r: Result<Vec<String>, AnalysisError>)
        ensures
            match r {
                Ok(col) => {
                    &&& has_column(self@.headers, column_name@)
                    &&& col.deep_view() == column_values(
                        self@,
                        column_position(self@.headers, column_name@),
                    )
                },
                Err(e) => !has_column(self@.headers, column_name@) && names_missing_column(
                    e,
                    column_name@,
                ),
            },
    {
        proof {
            lemma_column_position(self@.headers, column_name@);
        }
        match column_index(&self.headers, column_name) {
            None => Err(AnalysisError::ColumnNotFound(column_name.to_owned())),
            Some(c) => {
                let ghost want = column_values(self@, c as int);
                let mut col: Vec<String> = Vec::new();
                let mut i: usize = 0;
                while i < self.data.len()
                    invariant
                        i <= self.data.len(),
                        col.len() == i,
                        want.len() == self.data.len(),
                        want == column_values(self@, c as int),
                        forall|k: int| 0 <= k < i ==> col@[k]@ == want[k],
                    decreases self.data.len() - i,
                {
                    let cell = cell_or_empty(&self.data[i], c);
                    col.push(cell);
                    i = i + 1;
                }
                assert(col.deep_view() =~= want);
                Ok(col)
            },
        }
    }

    /// The row at `index`, if there is one.
    pub fn get_row(&self, index: usize) -> (r: Option<&Vec<String>>)
        ensures
            match r {
                Some(row) => index < self.data.len() && *row == self.data[index as int],
                None => index >= self.data.len(),
            },
    {
        if index < self.data.len() {
            Some(&self.data[index])
        } else {
            None
        }
    }
}

} // verus!
