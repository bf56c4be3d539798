use vstd::prelude::*;

verus! {

/// The closed set of failures that the analysis operations report.
#[derive(Debug, Clone, PartialEq, Eq)]
pub enum AnalysisError {
    /// No header carries the requested name.
    ColumnNotFound(String),
    /// The column exists but no cell of it reads as a number.
    NoNumericData(String),
    /// A statistic was asked of an empty sequence.
    EmptyInput,
    /// A test was given fewer observations than it needs.
    InsufficientData,
    /// A paired test was given sequences of different lengths.
    MismatchedLength,
    /// The selector of the alternative hypothesis is not one of the known ones.
    InvalidTestType(String),
    /// A sample was asked larger than the population.
    SampleSizeTooLarge,
    /// The file extension names no supported format.
    UnsupportedFormat(String),
    /// A text that should be a count is none.
    InvalidNumber(String),
    /// A column number lies outside the columns on offer.
    ColumnNumberOutOfRange(usize),
    /// The standard error of a test is zero, so its statistic is undefined.
    ZeroStandardError,
}

} // verus!
