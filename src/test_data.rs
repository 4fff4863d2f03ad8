//! Points of a labelled two-dimensional data set.
pub mod clustered_2d;
