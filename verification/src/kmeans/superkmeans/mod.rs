//! Clustering with early-pruned distances over a blocked centroid layout.
pub mod algo;
pub mod assign;
pub mod batch;
pub mod common;
pub mod computers;
pub mod corpus;
pub mod exact;
pub mod iteration;
pub mod layout;
pub mod nearest;
pub mod pdxearch;
pub mod random;
pub mod rows;
pub mod training;
