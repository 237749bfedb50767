//! The rateless IBLT quACK: coded symbols, the mapping from a source symbol
//! to the cells it covers, the encoder window and the peeling decoder.
use vstd::prelude::*;

pub mod decoder;
pub mod encoder;
pub mod mapping;
pub mod sketch;
pub mod symbol;

verus! {

/// The type of a source symbol.
pub type HashType = u32;

} // verus!
