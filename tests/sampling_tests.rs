use data_analyzer::analyzer::DataAnalyzer;
use data_analyzer::dataset::DataSet;
use data_analyzer::error::AnalysisError;

fn s(x: &str) -> String {
    x.to_string()
}

fn numbered(n: usize) -> DataSet {
    let rows = (0..n)
        .map(|i| vec![format!("row{}", i), ["a", "b", "c"][i % 3].to_string()])
        .collect();
    DataSet::new(vec![s("id"), s("group")], rows, s("data.csv"))
}

fn assert_distinct_rows_of(sample: &DataSet, source: &DataSet) {
    for (k, row) in sample.data.iter().enumerate() {
        assert!(source.data.contains(row));
        assert!(!sample.data[..k].contains(row));
    }
}

#[test]
fn random_sample_has_the_requested_size() {
    let a = DataAnalyzer::new();
    let ds = numbered(20);
    for size in [0usize, 1, 7, 20] {
        let sample = a.random_sample(&ds, size).unwrap();
        assert_eq!(sample.row_count(), size);
        assert_eq!(sample.headers, ds.headers);
        assert_distinct_rows_of(&sample, &ds);
    }
}

#[test]
fn random_sample_of_everything_is_a_permutation() {
    let a = DataAnalyzer::new();
    let ds = numbered(10);
    let sample = a.random_sample(&ds, 10).unwrap();
    let mut got = sample.data.clone();
    got.sort();
    let mut want = ds.data.clone();
    want.sort();
    assert_eq!(got, want);
}

#[test]
fn random_sample_labels_its_origin() {
    let a = DataAnalyzer::new();
    let sample = a.random_sample(&numbered(12), 3).unwrap();
    assert_eq!(sample.file_path, s("data.csv_sample_3"));
    let sample = a.random_sample(&numbered(120), 105).unwrap();
    assert_eq!(sample.file_path, s("data.csv_sample_105"));
    let sample = a.random_sample(&numbered(12), 0).unwrap();
    assert_eq!(sample.file_path, s("data.csv_sample_0"));
}

#[test]
fn random_sample_larger_than_the_data_fails() {
    let a = DataAnalyzer::new();
    assert_eq!(
        a.random_sample(&numbered(4), 5).unwrap_err(),
        AnalysisError::SampleSizeTooLarge
    );
}

#[test]
fn stratified_sample_takes_an_equal_share_of_each_stratum() {
    let a = DataAnalyzer::new();
    let ds = numbered(30);
    let sample = a.stratified_sample(&ds, "group", 9).unwrap();
    assert_eq!(sample.row_count(), 9);
    for g in ["a", "b", "c"] {
        assert_eq!(sample.data.iter().filter(|r| r[1] == g).count(), 3);
    }
    assert_distinct_rows_of(&sample, &ds);
    assert_eq!(sample.file_path, s("data.csv_stratified_sample_9"));
}

#[test]
fn stratified_sample_never_exceeds_the_request() {
    let a = DataAnalyzer::new();
    let ds = numbered(30);
    for size in [0usize, 1, 2, 4, 10, 11, 50] {
        let sample = a.stratified_sample(&ds, "group", size).unwrap();
        assert!(sample.row_count() <= size);
        assert_eq!(sample.row_count(), 3 * std::cmp::min(size / 3, 10));
        for row in &sample.data {
            assert!(["a", "b", "c"].contains(&row[1].as_str()));
        }
        assert_distinct_rows_of(&sample, &ds);
    }
}

#[test]
fn stratified_sample_caps_small_strata() {
    let a = DataAnalyzer::new();
    let ds = DataSet::new(
        vec![s("k")],
        vec![vec![s("x")], vec![s("y")], vec![s("y")], vec![s("y")], vec![s("y")]],
        s("t"),
    );
    let sample = a.stratified_sample(&ds, "k", 6).unwrap();
    assert_eq!(sample.data.iter().filter(|r| r[0] == "x").count(), 1);
    assert_eq!(sample.data.iter().filter(|r| r[0] == "y").count(), 3);
}

#[test]
fn stratified_sample_of_an_empty_table_is_empty() {
    let a = DataAnalyzer::new();
    let ds = DataSet::new(vec![s("k")], vec![], s("t"));
    assert_eq!(a.stratified_sample(&ds, "k", 5).unwrap().row_count(), 0);
}

#[test]
fn stratified_sample_on_unknown_column_fails() {
    let a = DataAnalyzer::new();
    assert_eq!(
        a.stratified_sample(&numbered(3), "region", 2).unwrap_err(),
        AnalysisError::ColumnNotFound(s("region"))
    );
}
