use data_analyzer::error::AnalysisError;
use data_analyzer::histogram::bin_counts;
use data_analyzer::tally::{stem_and_leaf, value_counts};
use data_analyzer::format::{file_format, format_of_lowered, FileFormat};
use data_analyzer::quantile::{median_positions, quantile_position};
use data_analyzer::text::same_text;
use data_analyzer::ttest::{one_sample_df, paired_df, parse_alternative, pooled_df, Alternative};

#[test]
fn quartile_positions_of_eight_values() {
    let q1 = quantile_position(8, 1, 4);
    assert_eq!((q1.lower, q1.upper, q1.weight_num, q1.weight_den), (1, 2, 3, 4));
    let q3 = quantile_position(8, 3, 4);
    assert_eq!((q3.lower, q3.upper, q3.weight_num, q3.weight_den), (5, 6, 1, 4));
    assert_eq!(median_positions(8), (3, 4));
}

#[test]
fn quartile_of_known_scenario_interpolates() {
    let sorted = [2.0f64, 4.0, 4.0, 4.0, 5.0, 5.0, 7.0, 9.0];
    let value = |p: data_analyzer::quantile::QuantilePosition| {
        let w = p.weight_num as f64 / p.weight_den as f64;
        sorted[p.lower] * (1.0 - w) + sorted[p.upper] * w
    };
    assert_eq!(value(quantile_position(8, 1, 4)), 4.0);
    assert_eq!(value(quantile_position(8, 3, 4)), 5.5);
    let (a, b) = median_positions(8);
    assert_eq!((sorted[a] + sorted[b]) / 2.0, 4.5);
}

#[test]
fn whole_index_has_no_weight() {
    let q = quantile_position(5, 1, 4);
    assert_eq!((q.lower, q.upper, q.weight_num), (1, 1, 0));
    assert_eq!(median_positions(5), (2, 2));
    let single = quantile_position(1, 3, 4);
    assert_eq!((single.lower, single.upper), (0, 0));
}

#[test]
fn quantile_ends_are_the_extremes() {
    let lo = quantile_position(10, 0, 4);
    let hi = quantile_position(10, 4, 4);
    assert_eq!((lo.lower, lo.upper), (0, 0));
    assert_eq!((hi.lower, hi.upper), (9, 9));
}

#[test]
fn alternative_selectors() {
    assert_eq!(parse_alternative("1"), Ok(Alternative::TwoSided));
    assert_eq!(parse_alternative("2"), Ok(Alternative::Greater));
    assert_eq!(parse_alternative("3"), Ok(Alternative::Less));
    assert_eq!(parse_alternative("4"), Err(AnalysisError::InvalidTestType("4".to_string())));
    assert_eq!(parse_alternative(""), Err(AnalysisError::InvalidTestType(String::new())));
}

#[test]
fn one_sample_degrees_of_freedom() {
    assert_eq!(one_sample_df(4), Ok(3));
    assert_eq!(one_sample_df(2), Ok(1));
    assert_eq!(one_sample_df(1), Err(AnalysisError::InsufficientData));
    assert_eq!(one_sample_df(0), Err(AnalysisError::InsufficientData));
}

#[test]
fn paired_degrees_of_freedom() {
    assert_eq!(paired_df(5, 5), Ok(4));
    assert_eq!(paired_df(3, 4), Err(AnalysisError::MismatchedLength));
    assert_eq!(paired_df(1, 1), Err(AnalysisError::InsufficientData));
}

#[test]
fn pooled_degrees_of_freedom() {
    let (d1, d2) = pooled_df(5, 5).unwrap();
    assert_eq!(d1 + d2, 8);
    assert_eq!(pooled_df(1, 5), Err(AnalysisError::InsufficientData));
    assert_eq!(pooled_df(5, 0), Err(AnalysisError::InsufficientData));
}

#[test]
fn file_formats_by_extension() {
    assert_eq!(file_format("csv"), Ok(FileFormat::Csv));
    assert_eq!(file_format("CSV"), Ok(FileFormat::Csv));
    assert_eq!(file_format("XlSx"), Ok(FileFormat::Excel));
    assert_eq!(file_format("xls"), Ok(FileFormat::Excel));
    assert_eq!(file_format("TXT"), Err(AnalysisError::UnsupportedFormat("txt".to_string())));
}

#[test]
fn lowered_extension_must_already_be_lowercase() {
    assert_eq!(format_of_lowered("csv"), Ok(FileFormat::Csv));
    assert_eq!(
        format_of_lowered("CSV"),
        Err(AnalysisError::UnsupportedFormat("CSV".to_string()))
    );
}

#[test]
fn texts_compare_by_characters() {
    assert!(same_text("abc", "abc"));
    assert!(!same_text("abc", "abd"));
    assert!(!same_text("abc", "ab"));
    assert!(same_text("", ""));
}

#[test]
fn bins_count_their_indices() {
    assert_eq!(bin_counts(&vec![0, 1, 1, 2, 9, 3], 4), vec![1, 2, 1, 2]);
    assert_eq!(bin_counts(&vec![], 3), vec![0, 0, 0]);
    assert_eq!(bin_counts(&vec![5, 5], 1), vec![2]);
}

#[test]
fn value_counts_ascend_by_value() {
    assert_eq!(value_counts(&vec![3, -1, 3, 0, 3, -1]), vec![(-1, 2), (0, 1), (3, 3)]);
    assert_eq!(value_counts(&vec![]), vec![]);
}

#[test]
fn stem_and_leaf_groups_tenths() {
    let table = stem_and_leaf(&vec![23, 21, 45, 5, -5, -23, -21, 29]);
    assert_eq!(
        table,
        vec![
            (-2, vec![1, 3]),
            (0, vec![5, 5]),
            (2, vec![1, 3, 9]),
            (4, vec![5]),
        ]
    );
    assert!(stem_and_leaf(&vec![]).is_empty());
}
