use data_analyzer::error::AnalysisError;
use data_analyzer::selection::{parse_column_selection, parse_count, select_by_numbers};

fn headers() -> Vec<String> {
    vec!["name".to_string(), "age".to_string(), "score".to_string()]
}

#[test]
fn counts_in_decimal() {
    assert_eq!(parse_count("42"), Some(42));
    assert_eq!(parse_count("+7"), Some(7));
    assert_eq!(parse_count("007"), Some(7));
    assert_eq!(parse_count("18446744073709551615"), Some(usize::MAX));
}

#[test]
fn counts_reject_other_text() {
    assert_eq!(parse_count(""), None);
    assert_eq!(parse_count("+"), None);
    assert_eq!(parse_count("-1"), None);
    assert_eq!(parse_count("4a"), None);
    assert_eq!(parse_count(" 4"), None);
    assert_eq!(parse_count("18446744073709551616"), None);
}

#[test]
fn selection_of_several_columns() {
    let r = parse_column_selection(" 3, 1 ,2\n", &headers(), true).unwrap();
    assert_eq!(r, vec!["score".to_string(), "name".to_string(), "age".to_string()]);
}

#[test]
fn selection_of_one_column() {
    assert_eq!(parse_column_selection("2\n", &headers(), false).unwrap(), vec!["age".to_string()]);
    assert_eq!(
        parse_column_selection("1,2", &headers(), false),
        Err(AnalysisError::InvalidNumber("1,2".to_string()))
    );
}

#[test]
fn selection_rejects_out_of_range_numbers() {
    assert_eq!(
        parse_column_selection("1,0", &headers(), true),
        Err(AnalysisError::ColumnNumberOutOfRange(0))
    );
    assert_eq!(
        parse_column_selection("4", &headers(), false),
        Err(AnalysisError::ColumnNumberOutOfRange(4))
    );
}

#[test]
fn selection_reports_the_first_bad_piece() {
    assert_eq!(
        parse_column_selection("1,,x", &headers(), true),
        Err(AnalysisError::InvalidNumber(String::new()))
    );
    assert_eq!(
        parse_column_selection("1, two, 9", &headers(), true),
        Err(AnalysisError::InvalidNumber("two".to_string()))
    );
}

#[test]
fn numbers_select_headers_in_order() {
    let parts = vec!["2", "2", "+1"];
    assert_eq!(
        select_by_numbers(&parts, &headers()).unwrap(),
        vec!["age".to_string(), "age".to_string(), "name".to_string()]
    );
    assert_eq!(
        select_by_numbers(&vec![" 1"], &headers()),
        Err(AnalysisError::InvalidNumber(" 1".to_string()))
    );
    assert_eq!(select_by_numbers(&vec![], &headers()).unwrap(), Vec::<String>::new());
}
