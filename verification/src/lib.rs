//! Occurrence matrices of discretised datasets, the building block of a
//! federated mRMR (minimum redundancy, maximum relevance) feature selector.
//!
//! A dataset is read as CSV text; every column ("feature") takes a finite set
//! of values, and every pair (feature, value) is a sub-feature named
//! `feature_value`. The library stores, for every pair of sub-features, the
//! number of records in which both hold. Such matrices can be merged, which is
//! what lets several parties combine their counts without sharing records.

pub mod order;
pub mod sparse;
pub mod dataset;
pub mod reading;
pub mod merge;
pub mod laws;
pub mod count_laws;
pub mod ranking;
