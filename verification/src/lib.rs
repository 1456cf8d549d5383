//! Entropy coding with range Asymmetric Numeral Systems on a stack of compressed words.
use vstd::prelude::*;

pub mod backends;
pub mod bit_array;
pub mod bindings;
pub mod format;
pub mod laws;
pub mod models;
pub mod rans;
pub mod stack;
pub mod symbols;
pub mod table;

verus! {

/// Why a symbol could not be encoded.
#[derive(Debug, Clone, Copy, PartialEq, Eq)]
pub enum EncodingError {
    /// The model gives the symbol the probability zero.
    ImpossibleSymbol,
}

/// Why encoding stopped when the symbols and models may themselves be errors.
#[derive(Debug, PartialEq, Eq)]
pub enum TryCodingError<CodingError, ModelError> {
    /// A symbol could not be encoded.
    CodingError(CodingError),
    /// Where a symbol and its model were expected, there was an error.
    InvalidEntropyModel(ModelError),
}

} // verus!
