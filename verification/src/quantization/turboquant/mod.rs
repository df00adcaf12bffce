//! Two-stage vector codes: packed codebook indices, packed signs and a norm.
pub mod accuracy;
pub mod bench;
pub mod bitpack;
pub mod codebook;
pub mod distance;
pub mod quantizer;
pub mod record;
pub mod scoring;
pub mod transposed;

pub use codebook::Codebook;
pub use distance::TurboQuantQuery;
pub use quantizer::{QjlProjectionKind, TurboQuantizer};
pub use record::bytes_per_record;
