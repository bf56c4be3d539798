use data_analyzer::analyzer::DataAnalyzer;
use data_analyzer::dataset::DataSet;
use data_analyzer::error::AnalysisError;

fn s(x: &str) -> String {
    x.to_string()
}

#[test]
fn frequency_counts_each_distinct_value() {
    let a = DataAnalyzer::new();
    let values = vec![s("A"), s("B"), s("A"), s("C"), s("A"), s("B")];
    let f = a.calculate_frequency(&values);
    assert_eq!(f.total_count, 6);
    assert_eq!(f.frequencies.len(), 3);
    assert_eq!(f.count_of("A"), 3);
    assert_eq!(f.count_of("B"), 2);
    assert_eq!(f.count_of("C"), 1);
    assert_eq!(f.count_of("D"), 0);
    let total: usize = f.frequencies.iter().map(|e| e.1).sum();
    assert_eq!(total, 6);
}

#[test]
fn frequency_distinguishes_exact_strings() {
    let a = DataAnalyzer::new();
    let f = a.calculate_frequency(&[s("1"), s("1.0"), s(" 1"), s("1")]);
    assert_eq!(f.frequencies.len(), 3);
    assert_eq!(f.count_of("1"), 2);
    assert_eq!(f.count_of("1.0"), 1);
}

#[test]
fn frequency_of_nothing_is_empty() {
    let a = DataAnalyzer::new();
    let f = a.calculate_frequency(&[]);
    assert_eq!(f.total_count, 0);
    assert!(f.frequencies.is_empty());
}

#[test]
fn column_frequency_reads_the_named_column() {
    let a = DataAnalyzer::new();
    let ds = DataSet::new(
        vec![s("grade")],
        vec![vec![s("A")], vec![s("B")], vec![s("A")]],
        s("g.csv"),
    );
    let f = a.analyze_column_frequency(&ds, "grade").unwrap();
    assert_eq!(f.count_of("A"), 2);
    assert_eq!(f.count_of("B"), 1);
    assert_eq!(f.total_count, 3);
}

#[test]
fn column_frequency_of_unknown_column_fails() {
    let a = DataAnalyzer::new();
    let ds = DataSet::new(vec![s("grade")], vec![], s("g.csv"));
    assert_eq!(
        a.analyze_column_frequency(&ds, "city").unwrap_err(),
        AnalysisError::ColumnNotFound(s("city"))
    );
}

#[test]
fn entries_by_count_come_largest_first() {
    let a = DataAnalyzer::new();
    let values: Vec<String> = ["x", "y", "y", "z", "z", "z", "w"].iter().map(|v| s(v)).collect();
    let f = a.calculate_frequency(&values);
    let sorted = f.entries_by_count();
    assert_eq!(
        sorted,
        vec![(s("z"), 3), (s("y"), 2), (s("x"), 1), (s("w"), 1)]
    );
}
