//! A tabular dataset of string cells and the statistical bookkeeping built
//! over it: column lookup, subsets, frequency tables, random and stratified
//! samples, quantile positions, histogram bins, stem-and-leaf tables, column
//! selections and the input rules of Student's t tests.
//!
//! Arithmetic on measured values is floating point and happens in the
//! caller; this crate supplies the positions, counts and rules it relies on.

pub mod analyze;
pub mod analyzer;
pub mod dataset;
pub mod error;
pub mod format;
pub mod frequency;
pub mod histogram;
pub mod quantile;
pub mod sampling;
pub mod selection;
pub mod subset;
pub mod tally;
pub mod text;
pub mod ttest;
