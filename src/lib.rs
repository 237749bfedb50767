//! Digests that let a verifier check which packets a router has seen.
//!
//! The crate holds modular arithmetic over a prime field, the power-sum and
//! rateless-IBLT quACKs, multiset hashes, and the accumulators that validate
//! a router's digest against a log of packets.
pub mod accumulator;
pub mod cbf;
pub mod digest;
pub mod field;
pub mod field16;
pub mod field64;
pub mod generator;
pub mod iblt;
pub mod modint;
pub mod packet;
pub mod power_sum;
pub mod power_sum16;
pub mod power_sum64;
pub mod riblt;
pub mod timing;
pub mod wire;
pub mod wrapper;

pub use accumulator::{NaiveAccumulator, PowerSumAccumulator, ValidationResult};
pub use digest::{AdditiveMsetHash, XorDigest};
pub use modint::ModularInteger;
pub use power_sum::PowerSumQuackU32;
pub use riblt::sketch::IBLTQuackU32;
pub use wrapper::QuackWrapper;

use vstd::prelude::*;

verus! {

/// A quACK: a digest of a multiset of elements from which the difference
/// with a subset can be decoded.
pub trait Quack: Sized {
    /// The type of element inserted.
    type Element;

    /// The quACK is well formed.
    spec fn quack_wf(&self) -> bool;

    /// `rhs` can be subtracted from this quACK.
    spec fn can_sub(&self, rhs: &Self) -> bool;

    /// A quACK that can decode up to `threshold` elements.
    fn new(threshold: usize) -> (r: Self)
        ensures
            r.quack_wf(),
    ;

    /// The decoding capacity.
    fn threshold(&self) -> usize;

    /// The number of elements, modulo `2^32`.
    fn count(&self) -> u32;

    /// The last element inserted, if it is known.
    fn last_value(&self) -> Option<Self::Element>
        requires
            self.quack_wf(),
    ;

    /// Inserts an element.
    fn insert(&mut self, value: Self::Element)
        requires
            old(self).quack_wf(),
        ensures
            final(self).quack_wf(),
    ;

    /// Removes an element, without checking that it was inserted.
    fn remove(&mut self, value: Self::Element)
        requires
            old(self).quack_wf(),
        ensures
            final(self).quack_wf(),
    ;

    /// Subtracts a quACK whose elements are a subset of this one's.
    fn sub_assign(&mut self, rhs: &Self)
        requires
            old(self).quack_wf(),
            rhs.quack_wf(),
            old(self).can_sub(rhs),
        ensures
            final(self).quack_wf(),
    ;

    /// The difference of two quACKs.
    fn sub(&self, rhs: &Self) -> (r: Self)
        requires
            self.quack_wf(),
            rhs.quack_wf(),
        ensures
            r.quack_wf(),
    ;
}

/// A quACK of power sums.
pub trait PowerSumQuack: Quack {
    /// The number of elements, which is the degree of the polynomial.
    spec fn degree(&self) -> nat;

    /// There are no more elements than power sums, so the polynomial can be
    /// computed.
    spec fn decodable(&self) -> bool;

    /// The coefficients of the polynomial whose roots are the elements, one
    /// per element.
    fn to_coeffs(&self) -> (r: Vec<Self::Element>)
        requires
            self.quack_wf(),
            self.decodable(),
        ensures
            r@.len() == self.degree(),
    ;

    /// Like `to_coeffs`, into a vector whose length is the degree.
    fn to_coeffs_preallocated(&self, coeffs: &mut Vec<Self::Element>)
        requires
            self.quack_wf(),
            self.decodable(),
            old(coeffs)@.len() == self.degree(),
        ensures
            final(coeffs)@.len() == self.degree(),
    ;

    /// The entries of `log` that are roots of the polynomial, in order.
    fn decode_with_log(&self, log: &[Self::Element]) -> (r: Vec<Self::Element>)
        requires
            self.quack_wf(),
            self.decodable(),
        ensures
            r@.len() <= log@.len(),
            forall|i: int| 0 <= i < r@.len() ==> log@.contains(#[trigger] r@[i]),
    ;
}

impl Quack for PowerSumQuackU32 {
    type Element = u32;

    open spec fn quack_wf(&self) -> bool {
        self.wf()
    }

    open spec fn can_sub(&self, rhs: &Self) -> bool {
        self.sums().len() == rhs.sums().len()
    }

    fn new(threshold: usize) -> (r: Self) {
        PowerSumQuackU32::new(threshold)
    }

    fn threshold(&self) -> usize {
        PowerSumQuackU32::threshold(self)
    }

    fn count(&self) -> u32 {
        PowerSumQuackU32::count(self)
    }

    fn last_value(&self) -> Option<u32> {
        PowerSumQuackU32::last_value(self)
    }

    fn insert(&mut self, value: u32) {
        PowerSumQuackU32::insert(self, value)
    }

    fn remove(&mut self, value: u32) {
        PowerSumQuackU32::remove(self, value)
    }

    fn sub_assign(&mut self, rhs: &Self) {
        PowerSumQuackU32::sub_assign(self, rhs)
    }

    fn sub(&self, rhs: &Self) -> (r: Self) {
        PowerSumQuackU32::sub(self, rhs)
    }
}

impl PowerSumQuack for PowerSumQuackU32 {
    open spec fn degree(&self) -> nat {
        self.spec_count() as nat
    }

    open spec fn decodable(&self) -> bool {
        self.spec_count() <= self.sums().len()
    }

    fn to_coeffs(&self) -> (r: Vec<u32>) {
        let r = PowerSumQuackU32::to_coeffs(self);
        proof {
            crate::power_sum::lemma_newton_len(self.sums(), self.spec_count() as nat);
            assert(crate::power_sum::ints(r@).len() == r@.len());
        }
        r
    }

    fn to_coeffs_preallocated(&self, coeffs: &mut Vec<u32>) {
        PowerSumQuackU32::to_coeffs_preallocated(self, coeffs)
    }

    fn decode_with_log(&self, log: &[u32]) -> (r: Vec<u32>) {
        let r = PowerSumQuackU32::decode_with_log(self, log);
        proof {
            if self.spec_count() != 0 {
                let c = crate::power_sum::newton_coeffs(self.sums(), self.spec_count() as nat);
                let f = |x: u32| crate::power_sum::horner(c, crate::field::fmod(x as int)) == 0;
                log@.lemma_filter_len(f);
                assert forall|i: int| 0 <= i < r@.len() implies log@.contains(#[trigger] r@[i]) by {
                    log@.lemma_filter_contains_rev(f, r@[i]);
                    broadcast use vstd::seq_lib::group_filter_ensures;
                }
            }
        }
        r
    }
}

impl Quack for power_sum16::PowerSumQuackU16 {
    type Element = u16;

    open spec fn quack_wf(&self) -> bool {
        self.wf()
    }

    open spec fn can_sub(&self, rhs: &Self) -> bool {
        self.sums().len() == rhs.sums().len()
    }

    fn new(threshold: usize) -> (r: Self) {
        power_sum16::PowerSumQuackU16::new(threshold)
    }

    fn threshold(&self) -> usize {
        power_sum16::PowerSumQuackU16::threshold(self)
    }

    fn count(&self) -> u32 {
        power_sum16::PowerSumQuackU16::count(self)
    }

    fn last_value(&self) -> Option<u16> {
        power_sum16::PowerSumQuackU16::last_value(self)
    }

    fn insert(&mut self, value: u16) {
        power_sum16::PowerSumQuackU16::insert(self, value)
    }

    fn remove(&mut self, value: u16) {
        power_sum16::PowerSumQuackU16::remove(self, value)
    }

    fn sub_assign(&mut self, rhs: &Self) {
        power_sum16::PowerSumQuackU16::sub_assign(self, rhs)
    }

    fn sub(&self, rhs: &Self) -> (r: Self) {
        power_sum16::PowerSumQuackU16::sub(self, rhs)
    }
}

impl PowerSumQuack for power_sum16::PowerSumQuackU16 {
    open spec fn degree(&self) -> nat {
        self.spec_count() as nat
    }

    open spec fn decodable(&self) -> bool {
        self.spec_count() <= self.sums().len()
    }

    fn to_coeffs(&self) -> (r: Vec<u16>) {
        let r = power_sum16::PowerSumQuackU16::to_coeffs(self);
        proof {
            crate::power_sum16::lemma_newton_len(self.sums(), self.spec_count() as nat);
            assert(crate::power_sum16::ints16(r@).len() == r@.len());
        }
        r
    }

    fn to_coeffs_preallocated(&self, coeffs: &mut Vec<u16>) {
        power_sum16::PowerSumQuackU16::to_coeffs_preallocated(self, coeffs)
    }

    fn decode_with_log(&self, log: &[u16]) -> (r: Vec<u16>) {
        let r = power_sum16::PowerSumQuackU16::decode_with_log(self, log);
        proof {
            if self.spec_count() != 0 {
                let c = crate::power_sum16::newton_coeffs(self.sums(), self.spec_count() as nat);
                let f = |x: u16| crate::power_sum16::horner(c, crate::field16::fmod(x as int)) == 0;
                log@.lemma_filter_len(f);
                assert forall|i: int| 0 <= i < r@.len() implies log@.contains(#[trigger] r@[i]) by {
                    log@.lemma_filter_contains_rev(f, r@[i]);
                    broadcast use vstd::seq_lib::group_filter_ensures;
                }
            }
        }
        r
    }
}

impl Quack for power_sum64::PowerSumQuackU64 {
    type Element = u64;

    open spec fn quack_wf(&self) -> bool {
        self.wf()
    }

    open spec fn can_sub(&self, rhs: &Self) -> bool {
        self.sums().len() == rhs.sums().len()
    }

    fn new(threshold: usize) -> (r: Self) {
        power_sum64::PowerSumQuackU64::new(threshold)
    }

    fn threshold(&self) -> usize {
        power_sum64::PowerSumQuackU64::threshold(self)
    }

    fn count(&self) -> u32 {
        power_sum64::PowerSumQuackU64::count(self)
    }

    fn last_value(&self) -> Option<u64> {
        power_sum64::PowerSumQuackU64::last_value(self)
    }

    fn insert(&mut self, value: u64) {
        power_sum64::PowerSumQuackU64::insert(self, value)
    }

    fn remove(&mut self, value: u64) {
        power_sum64::PowerSumQuackU64::remove(self, value)
    }

    fn sub_assign(&mut self, rhs: &Self) {
        power_sum64::PowerSumQuackU64::sub_assign(self, rhs)
    }

    fn sub(&self, rhs: &Self) -> (r: Self) {
        power_sum64::PowerSumQuackU64::sub(self, rhs)
    }
}

impl PowerSumQuack for power_sum64::PowerSumQuackU64 {
    open spec fn degree(&self) -> nat {
        self.spec_count() as nat
    }

    open spec fn decodable(&self) -> bool {
        self.spec_count() <= self.sums().len()
    }

    fn to_coeffs(&self) -> (r: Vec<u64>) {
        let r = power_sum64::PowerSumQuackU64::to_coeffs(self);
        proof {
            crate::power_sum64::lemma_newton_len(self.sums(), self.spec_count() as nat);
            assert(crate::power_sum64::ints(r@).len() == r@.len());
        }
        r
    }

    fn to_coeffs_preallocated(&self, coeffs: &mut Vec<u64>) {
        power_sum64::PowerSumQuackU64::to_coeffs_preallocated(self, coeffs)
    }

    fn decode_with_log(&self, log: &[u64]) -> (r: Vec<u64>) {
        let r = power_sum64::PowerSumQuackU64::decode_with_log(self, log);
        proof {
            if self.spec_count() != 0 {
                let c = crate::power_sum64::newton_coeffs(self.sums(), self.spec_count() as nat);
                let f = |x: u64| crate::power_sum64::horner(c, crate::field64::fmod(x as int)) == 0;
                log@.lemma_filter_len(f);
                assert forall|i: int| 0 <= i < r@.len() implies log@.contains(#[trigger] r@[i]) by {
                    log@.lemma_filter_contains_rev(f, r@[i]);
                    broadcast use vstd::seq_lib::group_filter_ensures;
                }
            }
        }
        r
    }
}

impl Quack for IBLTQuackU32 {
    type Element = u32;

    open spec fn quack_wf(&self) -> bool {
        true
    }

    open spec fn can_sub(&self, rhs: &Self) -> bool {
        self.cells().len() == rhs.cells().len() && self.spec_count() >= rhs.spec_count()
    }

    fn new(threshold: usize) -> (r: Self) {
        IBLTQuackU32::new(threshold)
    }

    fn threshold(&self) -> usize {
        IBLTQuackU32::threshold(self)
    }

    fn count(&self) -> u32 {
        IBLTQuackU32::count(self)
    }

    fn last_value(&self) -> Option<u32> {
        IBLTQuackU32::last_value(self)
    }

    fn insert(&mut self, value: u32) {
        IBLTQuackU32::insert(self, value)
    }

    fn remove(&mut self, value: u32) {
        IBLTQuackU32::remove(self, value)
    }

    fn sub_assign(&mut self, rhs: &Self) {
        IBLTQuackU32::sub_assign(self, rhs)
    }

    fn sub(&self, rhs: &Self) -> (r: Self) {
        IBLTQuackU32::sub(self, rhs)
    }
}

} // verus!
