//! Global 8-bit scalar quantization in a blocked cluster layout.
pub mod bench;
pub mod candidates;
pub mod distance_u8;
pub mod layout;
pub mod pruning;
pub mod scan;
pub mod search_pipeline;
