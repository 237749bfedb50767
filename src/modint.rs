//! A field element modulo [`LARGE_PRIME_U32`].
use vstd::prelude::*;
use crate::field::{add_and_mod, fmod, mul_and_mod, sub_and_mod, LARGE_PRIME_U32};

verus! {

/// An integer modulo the field prime.
#[derive(Clone, Copy, Debug, PartialEq, Eq, Structural)]
pub struct ModularInteger {
    value: u32,
}

impl ModularInteger {
    /// The value this element holds.
    pub closed spec fn view(&self) -> int {
        self.value as int
    }

    /// The element `x mod p`.
    pub fn new(x: u32) -> (r: Self)
        ensures
            r@ == fmod(x as int),
    {
        ModularInteger { value: x % LARGE_PRIME_U32 }
    }

    /// The modulus, widened.
    pub fn modulus_big() -> (r: u64)
        ensures
            r == LARGE_PRIME_U32,
    {
        LARGE_PRIME_U32 as u64
    }

    /// The value this element holds.
    pub fn value(&self) -> (r: u32)
        ensures
            r as int == self@,
    {
        self.value
    }

    /// `-self`.
    pub fn neg(&self) -> (r: Self)
        ensures
            r@ == fmod(-self@),
    {
        ModularInteger { value: sub_and_mod(0, self.value) }
    }

    /// `self + rhs`.
    pub fn add(&self, rhs: Self) -> (r: Self)
        ensures
            r@ == fmod(self@ + rhs@),
    {
        ModularInteger { value: add_and_mod(self.value, rhs.value) }
    }

    /// `self - rhs`.
    pub fn sub(&self, rhs: Self) -> (r: Self)
        ensures
            r@ == fmod(self@ - rhs@),
    {
        ModularInteger { value: sub_and_mod(self.value, rhs.value) }
    }

    /// `self * rhs`.
    pub fn mul(&self, rhs: Self) -> (r: Self)
        ensures
            r@ == fmod(self@ * rhs@),
    {
        ModularInteger { value: mul_and_mod(self.value, rhs.value) }
    }
}

} // verus!
