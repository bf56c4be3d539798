use vstd::prelude::*;

use crate::dataset::DataSet;

verus! {

/// Holds the dataset that an interactive analysis session works on.
pub struct AnalyzeManager {
    dataset: DataSet,
}

impl AnalyzeManager {
    /// The dataset of the session.
    pub closed spec fn spec_dataset(self) -> DataSet {
        self.dataset
    }

    pub fn new(dataset: DataSet) -> (r: Self)
        ensures
            r.spec_dataset() == dataset,
    {
        AnalyzeManager { dataset }
    }

    pub fn dataset(&self) -> (r: &DataSet)
        ensures
            *r == self.spec_dataset(),
    {
        &self.dataset
    }
}

} // verus!
