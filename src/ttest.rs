use vstd::prelude::*;

use crate::error::AnalysisError;
use crate::text::same_text;

verus! {

/// The alternative hypothesis of a t test, against a null hypothesis of no
/// difference.
#[derive(Debug, Clone, Copy, PartialEq, Eq)]
pub enum Alternative {
    /// The mean differs, in either direction.
    TwoSided,
    /// The mean is greater.
    Greater,
    /// The mean is less.
    Less,
}

/// The alternative that a menu selector names: "1" two-sided, "2" greater,
/// "3" less.
pub open spec fn alternative_for(selector: Seq<char>) -> Option<Alternative> {
    if selector == "1"@ {
        Some(Alternative::TwoSided)
    } else if selector == "2"@ {
        Some(Alternative::Greater)
    } else if selector == "3"@ {
        Some(Alternative::Less)
    } else {
        None
    }
}

/// Whether `e` reports `selector` as an unknown test type.
pub open spec fn names_invalid_test_type(e: AnalysisError, selector: Seq<char>) -> bool {
    match e {
        AnalysisError::InvalidTestType(s) => s@ == selector,
        _ => false,
    }
}

/// Reads the selector of the alternative hypothesis.
pub fn parse_alternative(selector: &str) -> (r: Result<Alternative, AnalysisError>)
    ensures
        match r {
            Ok(a) => alternative_for(selector@) == Some(a),
            Err(e) => alternative_for(selector@) is None && names_invalid_test_type(e, selector@),
        },
{
    if same_text(selector, "1") {
        Ok(Alternative::TwoSided)
    } else if same_text(selector, "2") {
        Ok(Alternative::Greater)
    } else if same_text(selector, "3") {
        Ok(Alternative::Less)
    } else {
        Err(AnalysisError::InvalidTestType(selector.to_owned()))
    }
}

/// The degrees of freedom of a one-sample test on `n` observations, `n - 1`;
/// fewer than two observations are too few.
pub fn one_sample_df(n: usize) -> (r: Result<usize, AnalysisError>)
    ensures
        match r {
            Ok(df) => n >= 2 && df == n - 1,
            Err(e) => n < 2 && e == AnalysisError::InsufficientData,
        },
{
    if n < 2 {
        Err(AnalysisError::InsufficientData)
    } else {
        Ok(n - 1)
    }
}

/// The degrees of freedom of a paired test on `n1` and `n2` observations:
/// the lengths must agree, and there must be at least two pairs.
pub fn paired_df(n1: usize, n2: usize) -> (r: Result<usize, AnalysisError>)
    ensures
        match r {
            Ok(df) => n1 == n2 && n1 >= 2 && df == n1 - 1,
            Err(e) => {
                &&& n1 != n2 ==> e == AnalysisError::MismatchedLength
                &&& n1 == n2 ==> n1 < 2 && e == AnalysisError::InsufficientData
            },
        },
{
    if n1 != n2 {
        Err(AnalysisError::MismatchedLength)
    } else if n1 < 2 {
        Err(AnalysisError::InsufficientData)
    } else {
        Ok(n1 - 1)
    }
}

/// The degrees of freedom that an independent-samples test with a pooled
/// variance has, `n1 + n2 - 2`, as each group's own `n - 1`; either group with
/// fewer than two observations is too few.
pub fn pooled_df(n1: usize, n2: usize) -> (r: Result<(usize, usize), AnalysisError>)
    ensures
        match r {
            Ok((d1, d2)) => n1 >= 2 && n2 >= 2 && d1 == n1 - 1 && d2 == n2 - 1 && d1 + d2 == n1
                + n2 - 2,
            Err(e) => (n1 < 2 || n2 < 2) && e == AnalysisError::InsufficientData,
        },
{
    if n1 < 2 || n2 < 2 {
        Err(AnalysisError::InsufficientData)
    } else {
        Ok((n1 - 1, n2 - 1))
    }
}

} // verus!
