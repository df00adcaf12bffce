//! Vector quantizers and the byte layouts behind them.
use vstd::prelude::*;
use vstd::string::*;

pub mod experiment;
pub mod factory;
pub mod naivesq;
pub mod pdx_u8;
pub mod rabitq;
pub mod turboquant;

pub use turboquant::quantizer::QjlProjectionKind;

verus! {

/// The distance that vectors are compared by.
#[derive(Debug, Clone, Copy, PartialEq, Eq, Structural)]
pub enum Metric {
    L2,
    InnerProduct,
}

/// What can go wrong when vectors are stored and loaded. An input or output
/// failure is kept as its description.
#[derive(Debug)]
pub enum VectorError {
    InvalidPersistence(&'static str),
    Io(String),
}

impl VectorError {
    /// The error in words.
    pub fn message(&self) -> (r: String)
        ensures
            self matches VectorError::InvalidPersistence(msg) ==> r@ == "invalid persisted data: "@
                + msg@,
            self matches VectorError::Io(err) ==> r@ == "i/o error: "@ + err@,
    {
        match self {
            VectorError::InvalidPersistence(msg) => {
                "invalid persisted data: ".to_owned().concat(msg)
            },
            VectorError::Io(err) => "i/o error: ".to_owned().concat(err.as_str()),
        }
    }
}

} // verus!
