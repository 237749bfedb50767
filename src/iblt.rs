//! The invertible Bloom lookup table: per cell, a count of the elements
//! hashed to it, modulo `2^bits`, and the sum of their images, modulo
//! `2^32`.
use vstd::prelude::*;
use rand::rngs::SmallRng;
use rand::Rng;
use rand::SeedableRng;
use siphasher::sip128::SipHasher13;
use std::hash::Hasher;
use crate::accumulator::{
    check_digest_from_removed_set, digest_all, djb, elem_to_u32, explains, lemma_select_all, same, search, views,
    ValidationResult,
};
use crate::digest::{amh_value, AdditiveMsetHash};

verus! {

/// The keyed 64-bit SipHash-1-3 of the little-endian bytes of `x`.
pub uninterp spec fn sip13_of(k0: u64, k1: u64, x: u32) -> u64;

/// Relies on siphasher's `sip128::SipHasher13`: `new_with_keys`, `write`
/// and `finish` give a 64-bit hash of the keys and the bytes alone; the
/// bytes are those of `x`, little-endian, on every target.
#[verifier::external_body]
pub(crate) fn sip13(k0: u64, k1: u64, x: u32) -> (r: u64)
    ensures
        r == sip13_of(k0, k1, x),
{
    let mut hasher = SipHasher13::new_with_keys(k0, k1);
    hasher.write(&x.to_le_bytes());
    hasher.finish()
}

/// Relies on rand's `SmallRng`, seeded by `seed_from_u64`: the four hash
/// keys drawn from `seed`. Nothing is promised of their values.
#[verifier::external_body]
pub(crate) fn keys_from_seed(seed: u64) -> (r: (u64, u64, u64, u64)) {
    let mut rng = SmallRng::seed_from_u64(seed);
    (rng.gen(), rng.gen(), rng.gen(), rng.gen())
}

/// Relies on rand's `OsRng`: a seed from the system.
#[verifier::external_body]
pub(crate) fn system_seed() -> (r: u64) {
    rand::rngs::OsRng.gen()
}

/// `2^b`.
pub open spec fn two_to(b: nat) -> nat
    decreases b,
{
    if b == 0 {
        1
    } else {
        2 * two_to((b - 1) as nat)
    }
}

/// The `i`-th hash of an element whose two base hashes are `h1` and `h2`.
pub open spec fn hash_seq(h1: u64, h2: u64, i: u32) -> u64 {
    if i == 0 {
        h1
    } else if i == 1 {
        h2
    } else {
        ((((h1 + i) % 0x1_0000_0000_0000_0000) * h2) % 0x1_0000_0000_0000_0000) as u64
    }
}

pub(crate) fn hash_at(h1: u64, h2: u64, i: u32) -> (r: u64)
    ensures
        r == hash_seq(h1, h2, i),
{
    if i == 0 {
        h1
    } else if i == 1 {
        h2
    } else {
        let p1 = h1.wrapping_add(i as u64);
        p1.wrapping_mul(h2)
    }
}

/// A table whose peeling met an image twice.
#[derive(Clone, Copy, Debug, PartialEq, Eq, Structural)]
pub struct InconsistentTable;

/// An invertible Bloom lookup table.
pub struct InvBloomLookupTable {
    counters: Vec<u32>,
    data: Vec<u32>,
    bits_per_entry: usize,
    num_entries: u64,
    num_hashes: u32,
    seed: u64,
    keys: (u64, u64, u64, u64),
}

/// `(a + b) mod 2^32`.
pub open spec fn wrap32(x: int) -> u32 {
    (x % 0x1_0000_0000) as u32
}

impl InvBloomLookupTable {
    pub closed spec fn spec_counters(&self) -> Seq<u32> {
        self.counters@
    }

    pub closed spec fn spec_data(&self) -> Seq<u32> {
        self.data@
    }

    pub closed spec fn spec_bits(&self) -> nat {
        self.bits_per_entry as nat
    }

    pub closed spec fn spec_num_hashes(&self) -> u32 {
        self.num_hashes
    }

    pub closed spec fn spec_keys(&self) -> (u64, u64, u64, u64) {
        self.keys
    }

    /// The number of cells.
    pub open spec fn len(&self) -> nat {
        self.spec_counters().len()
    }

    /// The modulus of the counters.
    pub open spec fn counter_modulus(&self) -> nat {
        two_to(self.spec_bits())
    }

    /// The cell of the `i`-th hash of the image `x`.
    pub open spec fn index_of(&self, x: u32, i: u32) -> int {
        let k = self.spec_keys();
        (hash_seq(sip13_of(k.0, k.1, x), sip13_of(k.2, k.3, x), i) as int) % (self.len() as int)
    }

    /// How many of the first `upto` hashes of `x` fall in cell `j`.
    pub open spec fn hits(&self, x: u32, j: int, upto: nat) -> nat
        decreases upto,
    {
        if upto == 0 {
            0
        } else {
            self.hits(x, j, (upto - 1) as nat) + if self.index_of(x, (upto - 1) as u32) == j { 1nat } else { 0nat }
        }
    }

    /// The table with the image `x` added `sign` times (`1` or `-1`) to each
    /// cell it hashes to.
    pub open spec fn moved(&self, x: u32, j: int, sign: int) -> (u32, u32) {
        let h = self.hits(x, j, self.spec_num_hashes() as nat) as int;
        (
            ((self.spec_counters()[j] + sign * h) % (self.counter_modulus() as int)) as u32,
            wrap32(self.spec_data()[j] + sign * h * x),
        )
    }

    pub closed spec fn wf(&self) -> bool {
        &&& 1 <= self.bits_per_entry <= 32
        &&& self.counters@.len() == self.num_entries
        &&& self.data@.len() == self.num_entries
        &&& self.num_entries > 0
        &&& forall|j: int| 0 <= j < self.counters@.len() ==> (#[trigger] self.counters@[j]) < two_to(self.bits_per_entry as nat)
    }

    /// A table of `num_entries` cells of `bits_per_entry`-bit counters and
    /// `num_hashes` hash functions, whose keys are drawn from the system.
    pub fn new(bits_per_entry: usize, num_entries: usize, num_hashes: u32) -> (r: Self)
        requires
            1 <= bits_per_entry <= 32,
            num_entries > 0,
        ensures
            r.wf(),
            r.len() == num_entries,
            r.spec_num_hashes() == num_hashes,
            r.spec_bits() == bits_per_entry,
            forall|j: int| 0 <= j < num_entries ==> #[trigger] r.spec_counters()[j] == 0,
            forall|j: int| 0 <= j < num_entries ==> #[trigger] r.spec_data()[j] == 0,
    {
        Self::new_with_seed(system_seed(), bits_per_entry, num_entries, num_hashes)
    }

    /// Like `new`, with the keys drawn from `seed`.
    pub fn new_with_seed(seed: u64, bits_per_entry: usize, num_entries: usize, num_hashes: u32) -> (r: Self)
        requires
            1 <= bits_per_entry <= 32,
            num_entries > 0,
        ensures
            r.wf(),
            r.len() == num_entries,
            r.spec_num_hashes() == num_hashes,
            r.spec_bits() == bits_per_entry,
            forall|j: int| 0 <= j < num_entries ==> #[trigger] r.spec_counters()[j] == 0,
            forall|j: int| 0 <= j < num_entries ==> #[trigger] r.spec_data()[j] == 0,
    {
        let keys = keys_from_seed(seed);
        let (counters, data) = zero_cells(num_entries);
        proof {
            lemma_two_to_pos(bits_per_entry as nat);
        }
        Self { counters, data, bits_per_entry, num_entries: num_entries as u64, num_hashes, seed, keys }
    }

    /// The same table with every cell emptied: the same keys and shape.
    pub fn empty_clone(&self) -> (r: Self)
        requires
            self.wf(),
        ensures
            r.wf(),
            r.len() == self.len(),
            r.spec_keys() == self.spec_keys(),
            r.spec_num_hashes() == self.spec_num_hashes(),
            r.spec_bits() == self.spec_bits(),
            forall|j: int| 0 <= j < r.len() ==> #[trigger] r.spec_counters()[j] == 0,
            forall|j: int| 0 <= j < r.len() ==> #[trigger] r.spec_data()[j] == 0,
    {
        let (counters, data) = zero_cells(self.counters.len());
        proof {
            lemma_two_to_pos(self.bits_per_entry as nat);
        }
        Self {
            counters,
            data,
            bits_per_entry: self.bits_per_entry,
            num_entries: self.num_entries,
            num_hashes: self.num_hashes,
            seed: self.seed,
            keys: self.keys,
        }
    }

    /// The per-cell sums of images.
    pub fn data(&self) -> (r: &Vec<u32>)
        ensures
            r@ == self.spec_data(),
    {
        &self.data
    }

    /// The per-cell counters.
    pub fn counters(&self) -> (r: &Vec<u32>)
        ensures
            r@ == self.spec_counters(),
    {
        &self.counters
    }

    /// The number of cells.
    pub fn num_entries(&self) -> (r: u64)
        requires
            self.wf(),
        ensures
            r == self.len(),
    {
        self.num_entries
    }

    /// The number of hash functions.
    pub fn num_hashes(&self) -> (r: u32)
        ensures
            r == self.spec_num_hashes(),
    {
        self.num_hashes
    }

    /// The largest counter value.
    fn max_value(&self) -> (r: u32)
        requires
            self.wf(),
        ensures
            r as int == self.counter_modulus() - 1,
    {
        let mut m: u64 = 1;
        let mut b: usize = 0;
        proof {
            lemma_two_to_32();
        }
        while b < self.bits_per_entry
            invariant
                b <= self.bits_per_entry <= 32,
                m == two_to(b as nat),
                1 <= m <= 0x1_0000_0000,
                two_to(32) == 0x1_0000_0000,
            decreases self.bits_per_entry - b,
        {
            proof {
                lemma_two_to_le(b as nat + 1, 32);
                assert(two_to(b as nat + 1) == 2 * two_to(b as nat));
            }
            m = m * 2;
            b = b + 1;
        }
        (m - 1) as u32
    }

    /// Checks that two tables have the same shape, keys and cells.
    pub fn equals(&self, other: &Self) -> (r: bool)
        ensures
            r == (self.spec_counters() == other.spec_counters() && self.spec_data() == other.spec_data()
                && self.spec_keys() == other.spec_keys() && self.spec_num_hashes() == other.spec_num_hashes()),
    {
        if self.num_hashes != other.num_hashes || self.keys.0 != other.keys.0 || self.keys.1 != other.keys.1
            || self.keys.2 != other.keys.2 || self.keys.3 != other.keys.3 {
            return false;
        }
        same_cells(&self.counters, &other.counters) && same_cells(&self.data, &other.data)
    }

    /// Adds the image `x`, or takes it out, in every cell it hashes to.
    fn move_u32(&mut self, x: u32, add: bool) -> (r: u32)
        requires
            old(self).wf(),
        ensures
            final(self).wf(),
            final(self).len() == old(self).len(),
            final(self).spec_keys() == old(self).spec_keys(),
            final(self).spec_num_hashes() == old(self).spec_num_hashes(),
            final(self).spec_bits() == old(self).spec_bits(),
            forall|j: int| 0 <= j < old(self).len() ==> (#[trigger] final(self).spec_counters()[j], final(self).spec_data()[j])
                == old(self).moved(x, j, if add { 1int } else { -1int }),
    {
        let ghost t0 = *self;
        let ghost sign: int = if add { 1int } else { -1int };
        let max = self.max_value();
        let h1 = sip13(self.keys.0, self.keys.1, x);
        let h2 = sip13(self.keys.2, self.keys.3, x);
        let nn = self.counters.len();
        let n = nn as u64;
        let mut min = u32::MAX;
        let mut i: u32 = 0;
        proof {
            lemma_two_to_pos(t0.bits_per_entry as nat);
            assert forall|j: int| 0 <= j < t0.len() implies #[trigger] self.counters@[j] as int == (t0.counters@[j]
                + sign * t0.hits(x, j, 0)) % (t0.counter_modulus() as int) by {
                vstd::arithmetic::div_mod::lemma_small_mod(t0.counters@[j] as nat, t0.counter_modulus());
            }
            assert forall|j: int| 0 <= j < t0.len() implies #[trigger] self.data@[j] == wrap32(t0.data@[j] + sign * t0.hits(x, j, 0) * x) by {
                vstd::arithmetic::div_mod::lemma_small_mod(t0.data@[j] as nat, 0x1_0000_0000);
                assert(t0.hits(x, j, 0) == 0);
                assert(sign * 0 * x == 0) by (nonlinear_arith);
            }
        }
        while i < self.num_hashes
            invariant
                self.wf(),
                nn == self.counters@.len(),
                n == nn,
                t0.wf(),
                sign == if add { 1int } else { -1int },
                self.counters@.len() == t0.counters@.len(),
                self.keys == t0.keys,
                self.num_hashes == t0.num_hashes,
                self.bits_per_entry == t0.bits_per_entry,
                self.num_entries == t0.num_entries,
                self.seed == t0.seed,
                max as int == t0.counter_modulus() - 1,
                h1 == sip13_of(t0.keys.0, t0.keys.1, x),
                h2 == sip13_of(t0.keys.2, t0.keys.3, x),
                i <= t0.num_hashes,
                forall|j: int| 0 <= j < t0.len() ==> #[trigger] self.counters@[j] as int == (t0.counters@[j] + sign * t0.hits(x, j, i as nat)) % (t0.counter_modulus() as int),
                forall|j: int| 0 <= j < t0.len() ==> #[trigger] self.data@[j] == wrap32(t0.data@[j] + sign * t0.hits(x, j, i as nat) * x),
            decreases t0.num_hashes - i,
        {
            let hv = hash_at(h1, h2, i);
            let idx = (hv % n) as usize;
            assert(t0.len() == nn);
            assert(hv == hash_seq(sip13_of(t0.spec_keys().0, t0.spec_keys().1, x), sip13_of(t0.spec_keys().2, t0.spec_keys().3, x), i));
            assert(idx as int == t0.index_of(x, i));
            let cur = self.counters[idx];
            if cur < min {
                min = cur;
            }
            let next = if add {
                if cur < max { cur + 1 } else { 0 }
            } else {
                if cur == 0 { max } else { cur - 1 }
            };
            let d = if add {
                ((self.data[idx] as u64 + x as u64) % 0x1_0000_0000) as u32
            } else {
                ((self.data[idx] as u64 + 0x1_0000_0000 - x as u64) % 0x1_0000_0000) as u32
            };
            proof {
                let m = t0.counter_modulus() as int;
                lemma_two_to_pos(t0.bits_per_entry as nat);
                let h = t0.hits(x, idx as int, i as nat);
                let c0 = t0.counters@[idx as int] as int;
                assert(t0.counters@[idx as int] < two_to(t0.bits_per_entry as nat));
                assert(two_to(t0.bits_per_entry as nat) >= 2) by {
                    lemma_two_to_le(1, t0.bits_per_entry as nat);
                    assert(two_to(1) == 2 * two_to(0));
                }
                lemma_step_counter(c0, sign * h, sign, m, cur as int, next as int);
                lemma_step_data(t0.data@[idx as int] as int, sign * h, sign, x as int, self.data@[idx as int] as int, d as int);
                assert(sign * (h + 1) == sign * h + sign) by (nonlinear_arith);
                assert((sign * (h + 1)) * x == (sign * h) * x + sign * x) by (nonlinear_arith);
            }
            self.counters.set(idx, next);
            self.data.set(idx, d);
            i = i + 1;
        }
        min
    }

    /// Inserts an element; returns whether every cell it hashes to was
    /// already non-zero.
    pub fn insert(&mut self, item: &[u8]) -> (r: bool)
        requires
            old(self).wf(),
        ensures
            final(self).wf(),
            final(self).len() == old(self).len(),
            final(self).spec_keys() == old(self).spec_keys(),
            final(self).spec_num_hashes() == old(self).spec_num_hashes(),
            final(self).spec_bits() == old(self).spec_bits(),
            forall|j: int| 0 <= j < old(self).len() ==> (#[trigger] final(self).spec_counters()[j], final(self).spec_data()[j])
                == old(self).moved(djb(item@), j, 1),
            r == forall|i: u32|
                i < old(self).spec_num_hashes() ==> old(self).spec_counters()[#[trigger] old(self).index_of(djb(item@), i)] != 0,
    {
        let present = self.contains(item);
        let x = elem_to_u32(item);
        self.move_u32(x, true);
        present
    }

    /// Takes an element out.
    pub fn remove(&mut self, item: &[u8])
        requires
            old(self).wf(),
        ensures
            final(self).wf(),
            final(self).len() == old(self).len(),
            forall|j: int| 0 <= j < old(self).len() ==> (#[trigger] final(self).spec_counters()[j], final(self).spec_data()[j])
                == old(self).moved(djb(item@), j, -1),
    {
        let x = elem_to_u32(item);
        self.move_u32(x, false);
    }

    /// The cells an element hashes to, one per hash function.
    pub fn indexes(&self, item: &[u8]) -> (r: Vec<usize>)
        requires
            self.wf(),
        ensures
            r@.len() == self.spec_num_hashes(),
            forall|i: int| 0 <= i < r@.len() ==> #[trigger] r@[i] as int == self.index_of(djb(item@), i as u32),
    {
        let x = elem_to_u32(item);
        let h1 = sip13(self.keys.0, self.keys.1, x);
        let h2 = sip13(self.keys.2, self.keys.3, x);
        let mut out: Vec<usize> = Vec::new();
        let mut i: u32 = 0;
        while i < self.num_hashes
            invariant
                self.wf(),
                i <= self.num_hashes,
                out@.len() == i,
                h1 == sip13_of(self.keys.0, self.keys.1, x),
                h2 == sip13_of(self.keys.2, self.keys.3, x),
                x == djb(item@),
                forall|q: int| 0 <= q < i ==> #[trigger] out@[q] as int == self.index_of(x, q as u32),
            decreases self.num_hashes - i,
        {
            let nn = self.counters.len();
            let hv = hash_at(h1, h2, i);
            let v = (hv % (nn as u64)) as usize;
            assert(v as int == self.index_of(x, i));
            out.push(v);
            i = i + 1;
        }
        out
    }

    /// Whether every cell the element hashes to is non-zero.
    pub fn contains(&self, item: &[u8]) -> (r: bool)
        requires
            self.wf(),
        ensures
            r == forall|i: u32| i < self.spec_num_hashes() ==> self.spec_counters()[#[trigger] self.index_of(djb(item@), i)] != 0,
    {
        let idx = self.indexes(item);
        let mut i: usize = 0;
        while i < idx.len()
            invariant
                self.wf(),
                idx@.len() == self.spec_num_hashes(),
                i <= idx@.len(),
                forall|q: int| 0 <= q < idx@.len() ==> #[trigger] idx@[q] as int == self.index_of(djb(item@), q as u32),
                forall|q: u32| q < i ==> self.spec_counters()[#[trigger] self.index_of(djb(item@), q)] != 0,
            decreases idx@.len() - i,
        {
            if self.counters[idx[i]] == 0 {
                assert(self.index_of(djb(item@), i as u32) == idx@[i as int]);
                return false;
            }
            proof {
                assert forall|q: u32| q < i + 1 implies self.spec_counters()[#[trigger] self.index_of(djb(item@), q)] != 0 by {
                    if q == i {
                        assert(idx@[q as int] as int == self.index_of(djb(item@), q));
                    }
                }
            }
            i = i + 1;
        }
        true
    }

    /// The number of cells of `j`'s that the images of `list` hash to,
    /// counted with multiplicity.
    pub open spec fn hits_all(&self, list: Seq<u32>, j: int) -> int
        decreases list.len(),
    {
        if list.len() == 0 {
            0
        } else {
            self.hits_all(list.drop_last(), j) + self.hits(list.last(), j, self.spec_num_hashes() as nat)
        }
    }

    /// The images of `list` summed over the hashes that fall in cell `j`.
    pub open spec fn weight_all(&self, list: Seq<u32>, j: int) -> int
        decreases list.len(),
    {
        if list.len() == 0 {
            0
        } else {
            self.weight_all(list.drop_last(), j) + self.hits(list.last(), j, self.spec_num_hashes() as nat) * list.last()
        }
    }

    /// The table with the images of `list` taken out.
    pub open spec fn without(&self, other: &Self, list: Seq<u32>) -> bool {
        &&& other.len() == self.len()
        &&& forall|j: int|
            0 <= j < self.len() ==> #[trigger] other.spec_counters()[j] as int == (self.spec_counters()[j]
                - self.hits_all(list, j)) % (self.counter_modulus() as int) && other.spec_data()[j] == wrap32(
                self.spec_data()[j] - self.weight_all(list, j),
            )
    }

    /// Peels the table: while some cell counts one element, its image sum is
    /// that element's image; takes it out of the table. Returns the images
    /// taken out, each once, when no cell counting one element is left.
    /// Fails when a cell names an image already taken out, which an honest
    /// table cannot hold.
    pub fn eliminate_elems(&mut self) -> (r: Result<Vec<u32>, InconsistentTable>)
        requires
            old(self).wf(),
        ensures
            final(self).wf(),
            final(self).len() == old(self).len(),
            r matches Ok(v) ==> {
                &&& old(self).without(&*final(self), v@)
                &&& v@.no_duplicates()
                &&& forall|j: int| 0 <= j < final(self).len() ==> #[trigger] final(self).spec_counters()[j] != 1
            },
    {
        let ghost t0 = *self;
        let mut removed: Vec<u32> = Vec::new();
        let mut rounds: u64 = 0;
        proof {
            assert forall|j: int| 0 <= j < t0.len() implies #[trigger] self.spec_counters()[j] as int == (
            t0.spec_counters()[j] - t0.hits_all(removed@, j)) % (t0.counter_modulus() as int) && self.spec_data()[j]
                == wrap32(t0.spec_data()[j] - t0.weight_all(removed@, j)) by {
                lemma_two_to_pos(t0.bits_per_entry as nat);
                vstd::arithmetic::div_mod::lemma_small_mod(t0.counters@[j] as nat, t0.counter_modulus());
                vstd::arithmetic::div_mod::lemma_small_mod(t0.data@[j] as nat, 0x1_0000_0000);
            }
        }
        while rounds <= u32::MAX as u64
            invariant
                self.wf(),
                t0.wf(),
                self.len() == t0.len(),
                self.spec_keys() == t0.spec_keys(),
                self.spec_num_hashes() == t0.spec_num_hashes(),
                self.spec_bits() == t0.spec_bits(),
                t0.without(&*self, removed@),
                removed@.no_duplicates(),
                t0 == *old(self),
                removed@.len() >= rounds,
            decreases u32::MAX as u64 + 1 - rounds,
        {
            let mut any = false;
            let mut i: usize = 0;
            let n = self.counters.len();
            let ghost c_round = self.spec_counters();
            let ghost d_round = self.spec_data();
            let ghost len_round = removed@.len();
            while i < n
                invariant
                    i <= n,
                    !any ==> removed@.len() == len_round,
                    any ==> removed@.len() > len_round,
                    len_round >= rounds,
                    !any ==> self.spec_counters() == c_round && self.spec_data() == d_round,
                    !any ==> forall|q: int| 0 <= q < i ==> #[trigger] c_round[q] != 1,
                    self.wf(),
                    t0.wf(),
                    self.len() == t0.len(),
                    self.spec_keys() == t0.spec_keys(),
                    self.spec_num_hashes() == t0.spec_num_hashes(),
                    self.spec_bits() == t0.spec_bits(),
                    t0.without(&*self, removed@),
                    n == self.len(),
                    removed@.no_duplicates(),
                    t0 == *old(self),
                decreases n - i,
            {
                if self.counters[i] == 1 {
                    let item = self.data[i];
                    if contains_u32(&removed, item) {
                        return Err(InconsistentTable);
                    }
                    let ghost before = *self;
                    let ghost list = removed@;
                    self.move_u32(item, false);
                    removed.push(item);
                    proof {
                        assert(removed@.drop_last() =~= list);
                        assert(removed@.last() == item);
                        lemma_two_to_le(t0.bits_per_entry as nat, 32);
                        lemma_two_to_32();
                        lemma_two_to_pos(t0.bits_per_entry as nat);
                        assert forall|j: int| 0 <= j < t0.len() implies #[trigger] self.spec_counters()[j] as int == (
                        t0.spec_counters()[j] - t0.hits_all(removed@, j)) % (t0.counter_modulus() as int)
                            && self.spec_data()[j] == wrap32(t0.spec_data()[j] - t0.weight_all(removed@, j)) by {
                            lemma_hits_same(before, t0, item, j, t0.num_hashes as nat);
                            let h = t0.hits(item, j, t0.num_hashes as nat) as int;
                            let m = t0.counter_modulus() as int;
                            assert(t0.hits_all(removed@, j) == t0.hits_all(list, j) + h);
                            assert(t0.weight_all(removed@, j) == t0.weight_all(list, j) + h * item);
                            assert(before.spec_counters()[j] as int == (t0.spec_counters()[j] - t0.hits_all(list, j)) % m);
                            assert(before.spec_data()[j] == wrap32(t0.spec_data()[j] - t0.weight_all(list, j)));
                            vstd::arithmetic::div_mod::lemma_mod_bound(t0.spec_counters()[j] - t0.hits_all(removed@, j), m);
                            vstd::arithmetic::div_mod::lemma_mod_bound(t0.spec_data()[j] - t0.weight_all(list, j), 0x1_0000_0000);
                            lemma_two_to_pos(t0.bits_per_entry as nat);
                            vstd::arithmetic::div_mod::lemma_sub_mod_noop(
                                t0.spec_counters()[j] - t0.hits_all(list, j),
                                h,
                                m,
                            );
                            vstd::arithmetic::div_mod::lemma_mod_twice(t0.spec_counters()[j] - t0.hits_all(list, j), m);
                            vstd::arithmetic::div_mod::lemma_sub_mod_noop(
                                t0.spec_counters()[j] - t0.hits_all(list, j),
                                h,
                                m,
                            );
                            lemma_mod_sub_step(t0.spec_counters()[j] - t0.hits_all(list, j), h, m);
                            lemma_mod_sub_step(t0.spec_data()[j] - t0.weight_all(list, j), h * item, 0x1_0000_0000);
                            assert((-1) * h == -h);
                            assert((-1) * h * item == -(h * item)) by (nonlinear_arith);
                        }
                    }
                    any = true;
                }
                i = i + 1;
            }
            if !any {
                return Ok(removed);
            }
            rounds = rounds + 1;
        }
        Err(InconsistentTable)
    }
}

/// The sum of the counters.
pub open spec fn counter_sum(c: Seq<u32>) -> int
    decreases c.len(),
{
    if c.len() == 0 {
        0
    } else {
        counter_sum(c.drop_last()) + c.last()
    }
}

/// The 32-bit images of the entries of a log.
pub open spec fn djb_images(log: Seq<Vec<u8>>) -> Seq<u32> {
    Seq::new(log.len(), |k: int| djb(log[k]@))
}

/// Cell `j`'s count in the table of `log` less `r`, in `r`'s frame.
pub open spec fn diff_count(r: InvBloomLookupTable, log: Seq<Vec<u8>>, j: int) -> int {
    (r.hits_all(djb_images(log), j) - r.spec_counters()[j]) % (r.counter_modulus() as int)
}

/// Cell `j`'s image sum in the table of `log` less `r`.
pub open spec fn diff_data(r: InvBloomLookupTable, log: Seq<Vec<u8>>, j: int) -> int {
    (r.weight_all(djb_images(log), j) - r.spec_data()[j]) % 0x1_0000_0000
}

/// The counts of the difference table.
pub open spec fn diff_counts(r: InvBloomLookupTable, log: Seq<Vec<u8>>) -> Seq<u32> {
    Seq::new(r.len(), |j: int| diff_count(r, log, j) as u32)
}

/// The log entries all of whose cells are non-zero in the difference of
/// the log's table and `r`.
pub open spec fn iblt_cands(r: InvBloomLookupTable, log: Seq<Vec<u8>>) -> Seq<bool> {
    Seq::new(
        log.len(),
        |q: int|
            forall|i: u32|
                i < r.spec_num_hashes() ==> diff_count(r, log, #[trigger] r.index_of(djb(log[q]@), i)) != 0,
    )
}

/// The difference table is consistent: no cell with a zero count holds
/// image data, and the counts add up to `n` elements of `k` cells each.
pub open spec fn diff_ok(r: InvBloomLookupTable, log: Seq<Vec<u8>>, n: int) -> bool {
    &&& forall|j: int| 0 <= j < r.len() ==> !(#[trigger] diff_count(r, log, j) == 0 && diff_data(r, log, j) != 0)
    &&& counter_sum(diff_counts(r, log)) == n * r.spec_num_hashes()
}

/// The table of `logged_elems`, in the frame of `received`, less
/// `received`, cell by cell; `None` when a cell with a zero count holds
/// image data or the counts do not add up to `n_dropped` elements of
/// `num_hashes` cells each, which means a counter wrapped around or a cell
/// was inconsistent.
pub fn calculate_difference_iblt(
    n_dropped: usize,
    logged_elems: &Vec<Vec<u8>>,
    received: &InvBloomLookupTable,
) -> (r: Option<InvBloomLookupTable>)
    requires
        received.wf(),
    ensures
        r.is_some() == diff_ok(*received, logged_elems@, n_dropped as int),
        r matches Some(t) ==> {
            &&& t.wf()
            &&& t.len() == received.len()
            &&& t.spec_keys() == received.spec_keys()
            &&& t.spec_num_hashes() == received.spec_num_hashes()
            &&& t.spec_bits() == received.spec_bits()
            &&& forall|j: int| 0 <= j < t.len() ==> #[trigger] t.spec_counters()[j] == diff_count(*received, logged_elems@, j)
            &&& forall|j: int| 0 <= j < t.len() ==> #[trigger] t.spec_data()[j] == diff_data(*received, logged_elems@, j)
            &&& counter_sum(t.spec_counters()) == n_dropped * received.spec_num_hashes()
        },
{
    let ghost imgs = djb_images(logged_elems@);
    let ghost m = received.counter_modulus() as int;
    let mut iblt = received.empty_clone();
    proof {
        lemma_two_to_pos(received.bits_per_entry as nat);
        lemma_two_to_le(received.bits_per_entry as nat, 32);
        lemma_two_to_32();
        assert(imgs.take(0) =~= Seq::<u32>::empty());
        assert forall|j: int| 0 <= j < iblt.len() implies #[trigger] iblt.spec_counters()[j] as int == received.hits_all(
            imgs.take(0),
            j,
        ) % m && iblt.spec_data()[j] == wrap32(received.weight_all(imgs.take(0), j)) by {
            vstd::arithmetic::div_mod::lemma_small_mod(0, m as nat);
            vstd::arithmetic::div_mod::lemma_small_mod(0, 0x1_0000_0000);
        }
    }
    let mut e: usize = 0;
    while e < logged_elems.len()
        invariant
            iblt.wf(),
            received.wf(),
            iblt.len() == received.len(),
            iblt.spec_keys() == received.spec_keys(),
            iblt.spec_num_hashes() == received.spec_num_hashes(),
            iblt.spec_bits() == received.spec_bits(),
            e <= logged_elems@.len(),
            imgs == djb_images(logged_elems@),
            m == received.counter_modulus() as int,
            m >= 1,
            m <= 0x1_0000_0000,
            forall|j: int| 0 <= j < iblt.len() ==> #[trigger] iblt.spec_counters()[j] as int == received.hits_all(imgs.take(e as int), j) % m,
            forall|j: int| 0 <= j < iblt.len() ==> #[trigger] iblt.spec_data()[j] == wrap32(received.weight_all(imgs.take(e as int), j)),
        decreases logged_elems@.len() - e,
    {
        let ghost before = iblt;
        iblt.insert(logged_elems[e].as_slice());
        proof {
            let x = djb(logged_elems@[e as int]@);
            assert(imgs.take(e + 1).drop_last() =~= imgs.take(e as int));
            assert(imgs.take(e + 1).last() == x);
            assert forall|j: int| 0 <= j < iblt.len() implies #[trigger] iblt.spec_counters()[j] as int == received.hits_all(
                imgs.take(e + 1),
                j,
            ) % m && iblt.spec_data()[j] == wrap32(received.weight_all(imgs.take(e + 1), j)) by {
                lemma_hits_same(before, *received, x, j, received.spec_num_hashes() as nat);
                let h = received.hits(x, j, received.spec_num_hashes() as nat) as int;
                let hh = received.hits_all(imgs.take(e as int), j);
                let ww = received.weight_all(imgs.take(e as int), j);
                assert(logged_elems@[e as int]@ == logged_elems[e as int]@);
                assert((iblt.spec_counters()[j], iblt.spec_data()[j]) == before.moved(x, j, 1));
                assert(before.spec_counters()[j] as int == hh % m);
                assert(before.spec_data()[j] == wrap32(ww));
                assert(received.hits_all(imgs.take(e + 1), j) == hh + h);
                assert(received.weight_all(imgs.take(e + 1), j) == ww + h * x);
                assert(before.counter_modulus() as int == m);
                vstd::arithmetic::div_mod::lemma_mod_bound(hh + h, m);
                vstd::arithmetic::div_mod::lemma_mod_bound(hh, m);
                vstd::arithmetic::div_mod::lemma_mod_bound(hh % m + 1 * h, m);
                assert(1 * h == h);
                assert(1 * h * x == h * x) by (nonlinear_arith);
                vstd::arithmetic::div_mod::lemma_add_mod_noop(hh, h, m);
                vstd::arithmetic::div_mod::lemma_mod_twice(hh, m);
                vstd::arithmetic::div_mod::lemma_add_mod_noop(hh % m, h, m);
                vstd::arithmetic::div_mod::lemma_add_mod_noop(ww, h * x, 0x1_0000_0000);
                vstd::arithmetic::div_mod::lemma_mod_twice(ww, 0x1_0000_0000);
                vstd::arithmetic::div_mod::lemma_add_mod_noop(ww % 0x1_0000_0000, h * x, 0x1_0000_0000);
                vstd::arithmetic::div_mod::lemma_mod_bound(ww, 0x1_0000_0000);
                vstd::arithmetic::div_mod::lemma_mod_bound(ww + h * x, 0x1_0000_0000);
                let wv = before.spec_data()[j] as int;
                assert(wv == ww % 0x1_0000_0000);
                vstd::arithmetic::div_mod::lemma_mod_bound(wv + h * x, 0x1_0000_0000);
                assert((wv + 1 * h * x) % 0x1_0000_0000 == (ww + h * x) % 0x1_0000_0000);
                assert(iblt.spec_data()[j] as int == (wv + 1 * h * x) % 0x1_0000_0000);
                assert(wrap32(ww + h * x) as int == (ww + h * x) % 0x1_0000_0000);
                assert(iblt.spec_data()[j] as int == wrap32(received.weight_all(imgs.take(e + 1), j)) as int);
            }
            assert forall|j: int| 0 <= j < iblt.len() implies #[trigger] iblt.spec_data()[j] == wrap32(
                received.weight_all(imgs.take(e + 1), j),
            ) by {
                assert(iblt.spec_counters()[j] as int == received.hits_all(imgs.take(e + 1), j) % m);
            }
        }
        e = e + 1;
    }
    assert(imgs.take(logged_elems@.len() as int) =~= imgs);
    let max = iblt.max_value();
    let n = iblt.counters.len();
    let ghost dcs = diff_counts(*received, logged_elems@);
    let mut sum: u128 = 0;
    let mut i: usize = 0;
    while i < n
        invariant
            iblt.wf(),
            received.wf(),
            n == iblt.counters@.len(),
            n == received.len(),
            iblt.len() == received.len(),
            iblt.spec_keys() == received.spec_keys(),
            iblt.spec_num_hashes() == received.spec_num_hashes(),
            iblt.spec_bits() == received.spec_bits(),
            max as int == iblt.counter_modulus() - 1,
            m == received.counter_modulus() as int,
            m >= 1,
            m <= 0x1_0000_0000,
            imgs == djb_images(logged_elems@),
            dcs == diff_counts(*received, logged_elems@),
            i <= n,
            sum == counter_sum(iblt.counters@.take(i as int)),
            sum <= i * 0x1_0000_0000,
            forall|j: int| 0 <= j < i ==> #[trigger] iblt.counters@[j] == dcs[j],
            forall|j: int| 0 <= j < i ==> #[trigger] iblt.spec_counters()[j] == diff_count(*received, logged_elems@, j),
            forall|j: int| 0 <= j < i ==> #[trigger] iblt.spec_data()[j] == diff_data(*received, logged_elems@, j),
            forall|j: int| 0 <= j < i ==> !(#[trigger] diff_count(*received, logged_elems@, j) == 0 && diff_data(*received, logged_elems@, j) != 0),
            forall|j: int| i <= j < n ==> #[trigger] iblt.spec_counters()[j] as int == received.hits_all(imgs, j) % m,
            forall|j: int| i <= j < n ==> #[trigger] iblt.spec_data()[j] == wrap32(received.weight_all(imgs, j)),
        decreases n - i,
    {
        let logged = iblt.counters[i];
        let got = received.counters[i];
        proof {
            assert(received.spec_counters()[i as int] < two_to(received.spec_bits()));
            assert(logged < two_to(iblt.bits_per_entry as nat));
        }
        let dc = if logged >= got { logged - got } else { (max - got) + logged + 1 };
        let dd = ((iblt.data[i] as u64 + 0x1_0000_0000 - received.data[i] as u64) % 0x1_0000_0000) as u32;
        proof {
            let hh = received.hits_all(imgs, i as int);
            let ww = received.weight_all(imgs, i as int);
            vstd::arithmetic::div_mod::lemma_mod_bound(ww, 0x1_0000_0000);
            assert(iblt.spec_data()[i as int] == iblt.data@[i as int]);
            assert(iblt.spec_data()[i as int] == wrap32(ww));
            assert(wrap32(ww) as int == ww % 0x1_0000_0000);
            assert(iblt.data@[i as int] as int == ww % 0x1_0000_0000);
            lemma_mod_sub_step(hh, got as int, m);
            vstd::arithmetic::div_mod::lemma_mod_bound(hh - got, m);
            if logged >= got {
                vstd::arithmetic::div_mod::lemma_small_mod((logged - got) as nat, m as nat);
            } else {
                vstd::arithmetic::div_mod::lemma_mod_multiples_vanish(1, logged - got, m);
                vstd::arithmetic::div_mod::lemma_small_mod((m + logged - got) as nat, m as nat);
            }
            assert(dc as int == diff_count(*received, logged_elems@, i as int));
            lemma_mod_sub_step(ww, received.data@[i as int] as int, 0x1_0000_0000);
            vstd::arithmetic::div_mod::lemma_mod_multiples_vanish(
                1,
                iblt.data@[i as int] - received.data@[i as int],
                0x1_0000_0000,
            );
            assert(dd as int == diff_data(*received, logged_elems@, i as int));
            assert(dcs[i as int] == dc);
        }
        if dc == 0 && dd != 0 {
            return None;
        }
        let ghost pre = iblt.counters@.take(i as int);
        iblt.counters.set(i, dc);
        iblt.data.set(i, dd);
        proof {
            assert(iblt.counters@.take(i + 1) =~= pre.push(dc));
            assert(pre.push(dc).drop_last() =~= pre);
            assert(iblt.counters@.take(i as int) =~= pre);
            assert(i * 0x1_0000_0000 + 0x1_0000_0000 == (i + 1) * 0x1_0000_0000) by (nonlinear_arith);
        }
        sum = sum + dc as u128;
        i = i + 1;
    }
    assert(iblt.counters@.take(n as int) =~= iblt.counters@);
    assert(iblt.counters@ =~= dcs);
    assert(n_dropped * iblt.num_hashes <= 0xffff_ffff_ffff_ffff * 0xffff_ffff) by (nonlinear_arith)
        requires
            n_dropped <= 0xffff_ffff_ffff_ffff,
            iblt.num_hashes <= 0xffff_ffff,
    ;
    if (n_dropped as u128) * (iblt.num_hashes as u128) == sum {
        Some(iblt)
    } else {
        None
    }
}

/// Parameters of the table the IBLT accumulator keeps by default.
pub const DEFAULT_BITS_PER_ENTRY: usize = 8;

/// Cells per element of the threshold.
pub const DEFAULT_CELLS_MULTIPLIER: usize = 10;

/// Hash functions per element.
pub const DEFAULT_NUM_HASHES: u32 = 2;

/// The IBLT accumulator: the multiset hash of the processed elements and
/// their invertible Bloom lookup table.
pub struct IBLTAccumulator {
    pub digest: AdditiveMsetHash,
    pub iblt: InvBloomLookupTable,
}

impl IBLTAccumulator {
    pub open spec fn wf(&self) -> bool {
        self.iblt.wf()
    }

    /// An empty accumulator of `cells_multiplier * threshold` cells; the
    /// table's keys come from `seed` when there is one.
    pub fn new_with_params(
        threshold: usize,
        bits_per_entry: usize,
        cells_multiplier: usize,
        num_hashes: u32,
        seed: Option<u64>,
    ) -> (r: Self)
        requires
            1 <= bits_per_entry <= 32,
            0 < cells_multiplier * threshold <= usize::MAX,
        ensures
            r.wf(),
            r.iblt.len() == cells_multiplier * threshold,
            r.iblt.spec_num_hashes() == num_hashes,
            r.iblt.spec_bits() == bits_per_entry,
            forall|j: int| 0 <= j < r.iblt.len() ==> #[trigger] r.iblt.spec_counters()[j] == 0,
            forall|j: int| 0 <= j < r.iblt.len() ==> #[trigger] r.iblt.spec_data()[j] == 0,
            r.digest.count == 0,
            r.digest.hash_value() == crate::digest::le_nat(crate::digest::tagged_hash(0, r.digest.nonce@)),
            seed matches Some(s) ==> r.digest.nonce@ == crate::accumulator::seed_nonce(s),
    {
        let n = cells_multiplier * threshold;
        let (iblt, digest) = match seed {
            Some(s) => (
                InvBloomLookupTable::new_with_seed(s, bits_per_entry, n, num_hashes),
                AdditiveMsetHash::new_with_seed(crate::accumulator::nonce_from_seed(s)),
            ),
            None => (InvBloomLookupTable::new(bits_per_entry, n, num_hashes), AdditiveMsetHash::new()),
        };
        Self { digest, iblt }
    }

    /// An accumulator with the default table parameters.
    pub fn new(threshold: usize, seed: Option<u64>) -> (r: Self)
        requires
            0 < threshold <= usize::MAX / 10,
        ensures
            r.wf(),
            r.iblt.len() == 10 * threshold,
            r.digest.count == 0,
    {
        Self::new_with_params(threshold, DEFAULT_BITS_PER_ENTRY, DEFAULT_CELLS_MULTIPLIER, DEFAULT_NUM_HASHES, seed)
    }

    /// Same digest and same table.
    pub fn equals(&self, other: &Self) -> (r: bool)
        ensures
            r == (self.digest.hash@ == other.digest.hash@ && self.digest.nonce@ == other.digest.nonce@
                && self.digest.count == other.digest.count && self.iblt.spec_counters() == other.iblt.spec_counters()
                && self.iblt.spec_data() == other.iblt.spec_data() && self.iblt.spec_keys() == other.iblt.spec_keys()
                && self.iblt.spec_num_hashes() == other.iblt.spec_num_hashes()),
    {
        same(&self.digest.hash, &other.digest.hash) && same_nonce(&self.digest.nonce, &other.digest.nonce)
            && self.digest.count == other.digest.count && self.iblt.equals(&other.iblt)
    }

    /// Empties the accumulator, under a new random nonce.
    pub fn reset(&mut self)
        requires
            old(self).wf(),
        ensures
            final(self).wf(),
            final(self).digest.count == 0,
            final(self).iblt.len() == old(self).iblt.len(),
    {
        self.digest = AdditiveMsetHash::new();
        self.iblt = self.iblt.empty_clone();
    }

    /// Processes one element.
    pub fn process(&mut self, elem: &[u8])
        requires
            old(self).wf(),
        ensures
            final(self).wf(),
            final(self).digest.count == old(self).digest.count.wrapping_add(1),
            final(self).digest.nonce == old(self).digest.nonce,
            final(self).digest.hash_value() == (old(self).digest.hash_value() + crate::digest::le_nat(
                crate::digest::tagged_hash(1, elem@),
            )) % crate::digest::hash_modulus(),
            final(self).iblt.len() == old(self).iblt.len(),
            forall|j: int|
                0 <= j < old(self).iblt.len() ==> (#[trigger] final(self).iblt.spec_counters()[j],
                    final(self).iblt.spec_data()[j]) == old(self).iblt.moved(djb(elem@), j, 1),
    {
        self.digest.add(elem);
        self.iblt.insert(elem);
    }

    /// Processes each element of `elems` in turn.
    pub fn process_batch(&mut self, elems: &Vec<Vec<u8>>)
        requires
            old(self).wf(),
        ensures
            final(self).wf(),
            final(self).iblt.len() == old(self).iblt.len(),
            final(self).digest.nonce == old(self).digest.nonce,
            final(self).digest.hash_value() == crate::digest::amh_extend(old(self).digest.hash_value(), views(elems@)),
            final(self).digest.count == (old(self).digest.count + elems@.len()) % 0x1_0000_0000,
    {
        let mut i: usize = 0;
        assert(views(elems@).skip(0) =~= views(elems@));
        while i < elems.len()
            invariant
                self.wf(),
                i <= elems@.len(),
                self.iblt.len() == old(self).iblt.len(),
                self.digest.nonce == old(self).digest.nonce,
                self.digest.count == (old(self).digest.count + i) % 0x1_0000_0000,
                crate::digest::amh_extend(self.digest.hash_value(), views(elems@).skip(i as int))
                    == crate::digest::amh_extend(old(self).digest.hash_value(), views(elems@)),
            decreases elems@.len() - i,
        {
            proof {
                assert(views(elems@).skip(i as int).drop_first() =~= views(elems@).skip(i + 1));
                assert(views(elems@).skip(i as int)[0] == elems@[i as int]@);
            }
            self.process(elems[i].as_slice());
            i = i + 1;
        }
        assert(views(elems@).skip(elems@.len() as int).len() == 0);
    }

    /// The number of elements processed.
    pub fn total(&self) -> (r: usize)
        ensures
            r == self.digest.count,
    {
        self.digest.count as usize
    }

    /// Checks that the processed elements are a sub-multiset of `elems`.
    ///
    /// The difference of the log's table and ours is peeled. When peeling
    /// accounts for every drop, the log less one preimage of each peeled
    /// image must hash to our digest (`Valid`, else `Invalid`). Otherwise
    /// the drops are searched for among the log entries whose cells are all
    /// non-zero in the difference (`IbltIlpValid`, else `IbltIlpInvalid`).
    pub fn validate(&self, elems: &Vec<Vec<u8>>) -> (r: ValidationResult)
        requires
            self.wf(),
        ensures
            elems@.len() < self.digest.count ==> r == ValidationResult::Invalid,
            elems@.len() == self.digest.count ==> (r == ValidationResult::Valid <==> amh_value(
                self.digest.nonce@,
                views(elems@),
            ) == self.digest.hash_value()),
            r.spec_is_valid() ==> explains(views(elems@), self.digest),
            elems@.len() > self.digest.count && !diff_ok(self.iblt, elems@, elems@.len() - self.digest.count)
                ==> r == ValidationResult::Invalid,
            r == ValidationResult::Valid || r == ValidationResult::Invalid || r == ValidationResult::IbltIlpValid
                || r == ValidationResult::IbltIlpInvalid,
            (r == ValidationResult::IbltIlpValid || r == ValidationResult::IbltIlpInvalid) ==> {
                &&& elems@.len() > self.digest.count
                &&& diff_ok(self.iblt, elems@, elems@.len() - self.digest.count)
                &&& (r == ValidationResult::IbltIlpValid <==> exists|keep: Seq<bool>|
                    #[trigger] crate::accumulator::fits(
                        views(elems@),
                        iblt_cands(self.iblt, elems@),
                        0,
                        elems@.len() - self.digest.count,
                        crate::digest::le_nat(crate::digest::tagged_hash(0, self.digest.nonce@)),
                        self.digest.hash_value(),
                        keep,
                    ))
            },
    {
        let total = self.digest.count as usize;
        if elems.len() < total {
            return ValidationResult::Invalid;
        }
        let d = elems.len() - total;
        let start = AdditiveMsetHash::new_with_seed(self.digest.nonce);
        if d == 0 {
            let all = digest_all(elems, start);
            if same(&all.hash, &self.digest.hash) {
                proof {
                    let keep = Seq::new(elems@.len(), |k: int| true);
                    lemma_select_all(views(elems@), keep);
                }
                return ValidationResult::Valid;
            }
            proof {
                if amh_value(self.digest.nonce@, views(elems@)) == self.digest.hash_value() {
                    crate::digest::lemma_le_nat_injective(all.hash@, self.digest.hash@);
                }
            }
            return ValidationResult::Invalid;
        }
        let mut diff = match calculate_difference_iblt(d, elems, &self.iblt) {
            Some(t) => t,
            None => {
                return ValidationResult::Invalid;
            },
        };
        // the candidates for dropping: entries whose cells are all non-zero
        // in the difference table
        let ghost ic = iblt_cands(self.iblt, elems@);
        let mut cand: Vec<bool> = Vec::new();
        let mut k: usize = 0;
        while k < elems.len()
            invariant
                k <= elems@.len(),
                cand@.len() == k,
                diff.wf(),
                self.wf(),
                diff.len() == self.iblt.len(),
                diff.spec_keys() == self.iblt.spec_keys(),
                diff.spec_num_hashes() == self.iblt.spec_num_hashes(),
                forall|j: int| 0 <= j < diff.len() ==> #[trigger] diff.spec_counters()[j] == diff_count(self.iblt, elems@, j),
                ic == iblt_cands(self.iblt, elems@),
                forall|q: int| 0 <= q < k ==> #[trigger] cand@[q] == ic[q],
            decreases elems@.len() - k,
        {
            let c = diff.contains(elems[k].as_slice());
            proof {
                let x = djb(elems@[k as int]@);
                assert forall|i: u32| i < self.iblt.spec_num_hashes() implies #[trigger] diff.index_of(x, i) == self.iblt.index_of(x, i)
                    && 0 <= self.iblt.index_of(x, i) < self.iblt.len() by {}
                assert(c == ic[k as int]) by {
                    if c {
                        assert forall|i: u32| i < self.iblt.spec_num_hashes() implies diff_count(
                            self.iblt,
                            elems@,
                            #[trigger] self.iblt.index_of(x, i),
                        ) != 0 by {
                            assert(diff.spec_counters()[diff.index_of(x, i)] != 0);
                        }
                    } else {
                        let i = choose|i: u32| i < diff.spec_num_hashes() && !(diff.spec_counters()[#[trigger] diff.index_of(x, i)] != 0);
                        assert(diff_count(self.iblt, elems@, self.iblt.index_of(x, i)) == 0);
                    }
                }
            }
            cand.push(c);
            k = k + 1;
        }
        assert(cand@ =~= ic);
        assert(views(elems@).skip(0) =~= views(elems@));
        // peeling finds the drops directly when it can
        if let Ok(removed) = diff.eliminate_elems() {
            if removed.len() == d {
                // every drop is accounted for: one preimage per image
                if check_digest_from_removed_set(&self.digest, elems, &removed) {
                    return ValidationResult::Valid;
                }
                return ValidationResult::Invalid;
            }
        }
        // otherwise look for the drops among the candidates
        let found = search(elems, &cand, &crate::accumulator::count_after(&cand), 0, d, start, &self.digest);
        if found {
            ValidationResult::IbltIlpValid
        } else {
            ValidationResult::IbltIlpInvalid
        }
    }
}

fn same_nonce(a: &[u8; 16], b: &[u8; 16]) -> (r: bool)
    ensures
        r == (a@ == b@),
{
    let mut i: usize = 0;
    while i < 16
        invariant
            i <= 16,
            forall|k: int| 0 <= k < i ==> a@[k] == b@[k],
        decreases 16 - i,
    {
        if a[i] != b[i] {
            return false;
        }
        i = i + 1;
    }
    assert(a@ =~= b@);
    true
}

fn contains_u32(v: &Vec<u32>, x: u32) -> (r: bool)
    ensures
        r == v@.contains(x),
{
    let mut i: usize = 0;
    while i < v.len()
        invariant
            i <= v@.len(),
            forall|k: int| 0 <= k < i ==> v@[k] != x,
        decreases v@.len() - i,
    {
        if v[i] == x {
            return true;
        }
        i = i + 1;
    }
    false
}

pub(crate) fn same_cells(a: &Vec<u32>, b: &Vec<u32>) -> (r: bool)
    ensures
        r == (a@ == b@),
{
    if a.len() != b.len() {
        return false;
    }
    let mut i: usize = 0;
    while i < a.len()
        invariant
            a@.len() == b@.len(),
            i <= a@.len(),
            forall|k: int| 0 <= k < i ==> a@[k] == b@[k],
        decreases a@.len() - i,
    {
        if a[i] != b[i] {
            return false;
        }
        i = i + 1;
    }
    assert(a@ =~= b@);
    true
}

pub(crate) fn zero_cells(n: usize) -> (r: (Vec<u32>, Vec<u32>))
    ensures
        r.0@.len() == n,
        r.1@.len() == n,
        forall|j: int| 0 <= j < n ==> #[trigger] r.0@[j] == 0,
        forall|j: int| 0 <= j < n ==> #[trigger] r.1@[j] == 0,
{
    let mut a: Vec<u32> = Vec::new();
    let mut b: Vec<u32> = Vec::new();
    let mut i: usize = 0;
    while i < n
        invariant
            i <= n,
            a@.len() == i,
            b@.len() == i,
            forall|j: int| 0 <= j < i ==> #[trigger] a@[j] == 0,
            forall|j: int| 0 <= j < i ==> #[trigger] b@[j] == 0,
        decreases n - i,
    {
        a.push(0);
        b.push(0);
        i = i + 1;
    }
    (a, b)
}

/// Two tables with the same keys and size hash alike.
proof fn lemma_hits_same(a: InvBloomLookupTable, b: InvBloomLookupTable, x: u32, j: int, n: nat)
    requires
        a.spec_keys() == b.spec_keys(),
        a.len() == b.len(),
    ensures
        a.hits(x, j, n) == b.hits(x, j, n),
    decreases n,
{
    if n > 0 {
        lemma_hits_same(a, b, x, j, (n - 1) as nat);
    }
}

/// `((v mod m) - h) mod m == (v - h) mod m`.
proof fn lemma_mod_sub_step(v: int, h: int, m: int)
    requires
        m > 0,
    ensures
        ((v % m) - h) % m == (v - h) % m,
{
    vstd::arithmetic::div_mod::lemma_fundamental_div_mod(v, m);
    let q = v / m;
    vstd::arithmetic::div_mod::lemma_mod_multiples_vanish(q, (v % m) - h, m);
    assert(m * q + ((v % m) - h) == v - h);
}

pub(crate) proof fn lemma_two_to_32()
    ensures
        two_to(32) == 0x1_0000_0000,
{
    reveal_with_fuel(two_to, 33);
}

pub(crate) proof fn lemma_two_to_pos(b: nat)
    ensures
        two_to(b) >= 1,
    decreases b,
{
    if b > 0 {
        lemma_two_to_pos((b - 1) as nat);
    }
}

pub(crate) proof fn lemma_two_to_le(a: nat, b: nat)
    requires
        a <= b,
    ensures
        two_to(a) <= two_to(b),
    decreases b,
{
    lemma_two_to_pos(b);
    if a < b {
        lemma_two_to_le(a, (b - 1) as nat);
        lemma_two_to_pos((b - 1) as nat);
    }
}

/// One counter step, up with wraparound or down with wraparound.
proof fn lemma_step_counter(c0: int, acc: int, sign: int, m: int, cur: int, next: int)
    requires
        m >= 2,
        0 <= c0 < m,
        sign == 1 || sign == -1,
        cur == (c0 + acc) % m,
        sign == 1 ==> next == if cur < m - 1 { cur + 1 } else { 0 },
        sign == -1 ==> next == if cur == 0 { m - 1 } else { cur - 1 },
    ensures
        next == (c0 + (acc + sign)) % m,
        0 <= next < m,
{
    vstd::arithmetic::div_mod::lemma_add_mod_noop(c0 + acc, sign, m);
    vstd::arithmetic::div_mod::lemma_mod_bound(c0 + acc, m);
    assert(c0 + (acc + sign) == (c0 + acc) + sign);
    if sign == 1 {
        vstd::arithmetic::div_mod::lemma_small_mod(1, m as nat);
        if cur < m - 1 {
            vstd::arithmetic::div_mod::lemma_small_mod((cur + 1) as nat, m as nat);
        } else {
            vstd::arithmetic::div_mod::lemma_mod_self_0(m);
        }
    } else {
        vstd::arithmetic::div_mod::lemma_mod_multiples_vanish(1, -1, m);
        vstd::arithmetic::div_mod::lemma_small_mod((m - 1) as nat, m as nat);
        assert((-1int) % m == m - 1);
        if cur == 0 {
            vstd::arithmetic::div_mod::lemma_small_mod((m - 1) as nat, m as nat);
        } else {
            vstd::arithmetic::div_mod::lemma_mod_multiples_vanish(1, cur - 1, m);
            vstd::arithmetic::div_mod::lemma_small_mod((cur - 1) as nat, m as nat);
        }
    }
}

/// One image-sum step, with wraparound.
proof fn lemma_step_data(d0: int, acc: int, sign: int, x: int, cur: int, next: int)
    requires
        sign == 1 || sign == -1,
        0 <= x < 0x1_0000_0000,
        cur == (d0 + acc * x) % 0x1_0000_0000,
        sign == 1 ==> next == (cur + x) % 0x1_0000_0000,
        sign == -1 ==> next == (cur + 0x1_0000_0000 - x) % 0x1_0000_0000,
    ensures
        next == (d0 + acc * x + sign * x) % 0x1_0000_0000,
{
    let m: int = 0x1_0000_0000;
    vstd::arithmetic::div_mod::lemma_small_mod(x as nat, m as nat);
    if sign == 1 {
        vstd::arithmetic::div_mod::lemma_add_mod_noop(d0 + acc * x, x, m);
        vstd::arithmetic::div_mod::lemma_mod_twice(d0 + acc * x, m);
    } else {
        vstd::arithmetic::div_mod::lemma_mod_multiples_vanish(1, cur - x, m);
        vstd::arithmetic::div_mod::lemma_sub_mod_noop(d0 + acc * x, x, m);
        vstd::arithmetic::div_mod::lemma_mod_twice(d0 + acc * x, m);
    }
}

} // verus!
