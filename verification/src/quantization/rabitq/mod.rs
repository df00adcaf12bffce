//! Binary vector codes with optional extension bits and per-vector factors.
use vstd::prelude::*;

pub mod bench;
pub mod fastscan;
pub mod record;
pub mod transposed;

pub use record::QuantizedVector;

verus! {

/// The distance that codes are made for.
#[derive(Debug, Clone, Copy, PartialEq, Eq, Structural)]
pub enum Metric {
    /// Euclidean distance.
    L2,
    /// Inner product.
    InnerProduct,
}

/// What can go wrong when codes are stored and loaded. An input or output
/// failure is kept as its description.
#[derive(Debug)]
pub enum RabitqError {
    InvalidPersistence(&'static str),
    Io(String),
}

impl RabitqError {
    /// The error in words.
    pub fn message(&self) -> (r: String)
        ensures
            self matches RabitqError::InvalidPersistence(msg) ==> r@ == "invalid persisted data: "@
                + msg@,
            self matches RabitqError::Io(err) ==> r@ == "i/o error: "@ + err@,
    {
        match self {
            RabitqError::InvalidPersistence(msg) => {
                "invalid persisted data: ".to_owned().concat(msg)
            },
            RabitqError::Io(err) => "i/o error: ".to_owned().concat(err.as_str()),
        }
    }
}

/// Bytes of a record.
pub fn bytes_per_record(padded_dims: usize, ex_bits: usize) -> (r: usize)
    requires
        record::record_fits(padded_dims as int, ex_bits as int),
    ensures
        r == record::record_len(padded_dims as int, ex_bits as int),
{
    record::bytes_per_record(padded_dims, ex_bits)
}

} // verus!
