use data_analyzer::analyze::AnalyzeManager;
use data_analyzer::dataset::{column_index, DataSet};
use data_analyzer::error::AnalysisError;
use data_analyzer::subset::extract_subset;

fn s(x: &str) -> String {
    x.to_string()
}

fn people() -> DataSet {
    DataSet::new(
        vec![s("name"), s("age"), s("city")],
        vec![
            vec![s("kim"), s("31"), s("seoul")],
            vec![s("lee"), s("27"), s("busan")],
            vec![s("park"), s("45"), s("seoul")],
        ],
        s("people.csv"),
    )
}

#[test]
fn counts_rows_and_columns() {
    let ds = people();
    assert_eq!(ds.row_count(), 3);
    assert_eq!(ds.column_count(), 3);
}

#[test]
fn get_column_returns_cells_in_row_order() {
    let ds = people();
    assert_eq!(ds.get_column("age").unwrap(), vec![s("31"), s("27"), s("45")]);
}

#[test]
fn get_column_reads_missing_cells_as_empty() {
    let ds = DataSet::new(
        vec![s("a"), s("b")],
        vec![vec![s("1"), s("2")], vec![s("3")]],
        s("short.csv"),
    );
    assert_eq!(ds.get_column("b").unwrap(), vec![s("2"), s("")]);
}

#[test]
fn get_column_of_unknown_name_fails() {
    let ds = people();
    assert_eq!(ds.get_column("salary"), Err(AnalysisError::ColumnNotFound(s("salary"))));
}

#[test]
fn duplicate_headers_resolve_to_the_first() {
    let ds = DataSet::new(
        vec![s("x"), s("x")],
        vec![vec![s("first"), s("second")]],
        s("dup.csv"),
    );
    assert_eq!(ds.get_column("x").unwrap(), vec![s("first")]);
    assert_eq!(column_index(&ds.headers, "x"), Some(0));
    assert_eq!(column_index(&ds.headers, "y"), None);
}

#[test]
fn get_row_is_bounds_checked() {
    let ds = people();
    assert_eq!(ds.get_row(1), Some(&vec![s("lee"), s("27"), s("busan")]));
    assert_eq!(ds.get_row(3), None);
}

#[test]
fn subset_of_everything_reproduces_the_table() {
    let ds = people();
    let out = extract_subset(&ds, None, None).unwrap();
    assert_eq!(out.headers, ds.headers);
    assert_eq!(out.data, ds.data);
    assert_eq!(out.file_path, s("people.csv_subset"));
}

#[test]
fn subset_with_explicit_rows_and_columns_reproduces_the_table() {
    let ds = people();
    let out = extract_subset(&ds, Some(vec![0, 1, 2]), Some(ds.headers.clone())).unwrap();
    assert_eq!(out.headers, ds.headers);
    assert_eq!(out.data, ds.data);
}

#[test]
fn subset_selects_rows_and_columns_in_request_order() {
    let ds = people();
    let out = extract_subset(&ds, Some(vec![2, 7, 0]), Some(vec![s("city"), s("name")])).unwrap();
    assert_eq!(out.headers, vec![s("city"), s("name")]);
    assert_eq!(out.data, vec![vec![s("seoul"), s("park")], vec![s("seoul"), s("kim")]]);
}

#[test]
fn subset_pads_short_rows() {
    let ds = DataSet::new(vec![s("a"), s("b")], vec![vec![s("1")]], s("t"));
    let out = extract_subset(&ds, None, None).unwrap();
    assert_eq!(out.data, vec![vec![s("1"), s("")]]);
}

#[test]
fn subset_names_the_first_missing_column() {
    let ds = people();
    let r = extract_subset(&ds, None, Some(vec![s("name"), s("zip"), s("phone")]));
    assert_eq!(r.unwrap_err(), AnalysisError::ColumnNotFound(s("zip")));
}

#[test]
fn manager_keeps_its_dataset() {
    let m = AnalyzeManager::new(people());
    assert_eq!(m.dataset().row_count(), 3);
    assert_eq!(m.dataset().headers[0], s("name"));
}
