use vstd::prelude::*;

verus! {

/// Entry point of the analyses that work on a whole dataset: frequency
/// tables and samples of rows.
pub struct DataAnalyzer;

impl DataAnalyzer {
    pub fn new() -> (r: Self) {
        DataAnalyzer
    }
}

} // verus!
