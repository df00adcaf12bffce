//! Clustering.
pub mod balance;
pub mod duplication;
pub mod experiment;
pub mod report;
pub mod spann;
pub mod superkmeans;
