//! Coded symbols.
use vstd::prelude::*;
use super::HashType;

verus! {

/// The direction in which a source symbol is applied to a coded symbol:
/// the amount added to its count, modulo `256`.
pub type Direction = u8;

/// Adds a source symbol.
pub const ADD: Direction = 1;

/// Takes a source symbol out.
pub const REMOVE: Direction = 255;

/// A coded symbol of a rateless IBLT: the XOR of the source symbols that
/// cover it, and their number modulo `256` (read as a signed byte).
#[derive(Clone, Copy, Debug, PartialEq, Eq, Structural, Default)]
pub struct CodedSymbol {
    pub hash: HashType,
    pub count: u8,
}

/// `c` with the source symbol `hash` applied in direction `d`.
pub open spec fn applied(c: CodedSymbol, hash: HashType, d: Direction) -> CodedSymbol {
    CodedSymbol { hash: c.hash ^ hash, count: ((c.count + d) % 256) as u8 }
}

impl CodedSymbol {
    /// The empty coded symbol.
    pub fn empty() -> (r: Self)
        ensures
            r.hash == 0 && r.count == 0,
    {
        CodedSymbol { hash: 0, count: 0 }
    }

    /// Applies the source symbol `hash` in `direction`; returns the result.
    pub fn apply(&mut self, hash: HashType, direction: Direction) -> (r: CodedSymbol)
        ensures
            *final(self) == applied(*old(self), hash, direction),
            r == *final(self),
    {
        self.hash = self.hash ^ hash;
        self.count = self.count.wrapping_add(direction);
        *self
    }
}

} // verus!
