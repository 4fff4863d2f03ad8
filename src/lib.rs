//! Estimation of the single-linkage distance for points ordered along a Hilbert curve,
//! a partition structure for grouping items into clusters, and the B-Cubed tallies
//! used to score one partition against another.
pub mod clustering;
pub mod test_data;
