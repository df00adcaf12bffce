//! Building blocks for approximate vector search experiments.
pub mod arith;
pub mod bits;
pub mod dataset;
pub mod decimal;
pub mod experiment;
pub mod fraction;
pub mod functions;
pub mod kmeans;
pub mod metrics;
pub mod quantization;
pub mod ranking;
pub mod significand;
