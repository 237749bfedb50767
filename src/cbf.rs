//! The counting Bloom filter and the accumulator built on it.
use vstd::prelude::*;
use crate::accumulator::{
    count_after, digest_all, djb, elem_to_u32, explains, fits, lemma_select_all, same, search, views,
    ValidationResult,
};
use crate::digest::{amh_value, AdditiveMsetHash};
use crate::iblt::{
    hash_at, hash_seq, keys_from_seed, lemma_two_to_32, lemma_two_to_le, lemma_two_to_pos, sip13,
    sip13_of, system_seed, two_to,
};
use bloom::ValueVec;

verus! {

#[verifier::external_type_specification]
#[verifier::external_body]
pub struct ExValueVec(ValueVec);

/// The values a packed counter vector holds.
pub uninterp spec fn valuevec_contents(v: ValueVec) -> Seq<u32>;

/// The bits per value a packed counter vector was made with.
pub uninterp spec fn valuevec_bits(v: ValueVec) -> nat;

/// Relies on bloom's `ValueVec::new`: `count` values of `bits_per_val` bits,
/// all zero. It computes `2^bits_per_val - 1` and `bits_per_val * count`,
/// hence the bounds.
#[verifier::external_body]
fn vv_new(bits_per_val: usize, count: usize) -> (r: ValueVec)
    requires
        1 <= bits_per_val <= 31,
        bits_per_val * count <= usize::MAX,
    ensures
        valuevec_contents(r) == Seq::new(count as nat, |i: int| 0u32),
        valuevec_bits(r) == bits_per_val,
{
    ValueVec::new(bits_per_val, count)
}

/// Relies on bloom's `ValueVec::get`: the value at `i`.
#[verifier::external_body]
fn vv_get(v: &ValueVec, i: usize) -> (r: u32)
    requires
        i < valuevec_contents(*v).len(),
    ensures
        r == valuevec_contents(*v)[i as int],
{
    v.get(i)
}

/// Relies on bloom's `ValueVec::set`: stores `val` at `i`; it panics on a
/// value above `2^bits - 1`.
#[verifier::external_body]
fn vv_set(v: &mut ValueVec, i: usize, val: u32)
    requires
        i < valuevec_contents(*old(v)).len(),
        val < two_to(valuevec_bits(*old(v))),
    ensures
        valuevec_contents(*final(v)) == valuevec_contents(*old(v)).update(i as int, val),
        valuevec_bits(*final(v)) == valuevec_bits(*old(v)),
{
    v.set(i, val)
}

/// Relies on bloom's `ValueVec::max_value`: `2^bits - 1`, the mask made at
/// construction.
#[verifier::external_body]
fn vv_max(v: &ValueVec) -> (r: u32)
    requires
        1 <= valuevec_bits(*v) <= 31,
    ensures
        r as int == two_to(valuevec_bits(*v)) - 1,
{
    v.max_value()
}

/// A counter of the filter would pass its largest value.
#[derive(Clone, Copy, Debug, PartialEq, Eq, Structural)]
pub struct CounterOverflow;

/// A counting Bloom filter: per cell, how many elements hash to it.
pub struct CountingBloomFilter {
    counters: ValueVec,
    cells: usize,
    bits_per_entry: usize,
    num_hashes: u32,
    keys: (u64, u64, u64, u64),
}

impl CountingBloomFilter {
    pub closed spec fn spec_counters(&self) -> Seq<u32> {
        valuevec_contents(self.counters)
    }

    pub closed spec fn spec_num_hashes(&self) -> u32 {
        self.num_hashes
    }

    pub closed spec fn spec_bits(&self) -> nat {
        self.bits_per_entry as nat
    }

    pub closed spec fn spec_keys(&self) -> (u64, u64, u64, u64) {
        self.keys
    }

    /// The number of cells.
    pub open spec fn len(&self) -> nat {
        self.spec_counters().len()
    }

    /// The cell of the `i`-th hash of the image `x`.
    pub open spec fn index_of(&self, x: u32, i: u32) -> int {
        let k = self.spec_keys();
        (hash_seq(sip13_of(k.0, k.1, x), sip13_of(k.2, k.3, x), i) as int) % (self.len() as int)
    }

    /// How many of the first `upto` hashes of `x` fall in cell `j`.
    pub open spec fn hits(&self, x: u32, j: int, upto: nat) -> nat
        decreases upto,
    {
        if upto == 0 {
            0
        } else {
            self.hits(x, j, (upto - 1) as nat) + if self.index_of(x, (upto - 1) as u32) == j { 1nat } else { 0nat }
        }
    }

    pub closed spec fn wf(&self) -> bool {
        &&& 1 <= self.bits_per_entry <= 31
        &&& valuevec_bits(self.counters) == self.bits_per_entry
        &&& self.cells == self.spec_counters().len()
        &&& self.bits_per_entry * self.cells <= usize::MAX
        &&& self.spec_counters().len() > 0
        &&& forall|j: int| 0 <= j < self.spec_counters().len() ==> (#[trigger] self.spec_counters()[j]) < two_to(self.bits_per_entry as nat)
    }

    /// A filter of `num_entries` cells of `bits_per_entry`-bit counters and
    /// `num_hashes` hash functions, keyed from `seed` or from the system.
    pub fn new(bits_per_entry: usize, num_entries: usize, num_hashes: u32, seed: Option<u64>) -> (r: Self)
        requires
            1 <= bits_per_entry <= 31,
            num_entries > 0,
            bits_per_entry * num_entries <= usize::MAX,
        ensures
            r.wf(),
            r.len() == num_entries,
            r.spec_num_hashes() == num_hashes,
            forall|j: int| 0 <= j < num_entries ==> #[trigger] r.spec_counters()[j] == 0,
    {
        let s = match seed {
            Some(s) => s,
            None => system_seed(),
        };
        let keys = keys_from_seed(s);
        let counters = vv_new(bits_per_entry, num_entries);
        proof {
            lemma_two_to_pos(bits_per_entry as nat);
        }
        Self { counters, cells: num_entries, bits_per_entry, num_hashes, keys }
    }

    /// The same filter with every counter zero: the same keys and shape.
    pub fn empty_clone(&self) -> (r: Self)
        requires
            self.wf(),
        ensures
            r.wf(),
            r.len() == self.len(),
            r.spec_keys() == self.spec_keys(),
            r.spec_num_hashes() == self.spec_num_hashes(),
            r.spec_bits() == self.spec_bits(),
            forall|j: int| 0 <= j < r.len() ==> #[trigger] r.spec_counters()[j] == 0,
    {
        proof {
            lemma_two_to_pos(self.bits_per_entry as nat);
        }
        let counters = vv_new(self.bits_per_entry, self.cells);
        Self {
            counters,
            cells: self.cells,
            bits_per_entry: self.bits_per_entry,
            num_hashes: self.num_hashes,
            keys: self.keys,
        }
    }

    /// The counters.
    pub fn counters(&self) -> (r: &ValueVec)
        ensures
            valuevec_contents(*r) == self.spec_counters(),
    {
        &self.counters
    }

    /// The number of cells.
    pub fn num_entries(&self) -> (r: u64)
        requires
            self.wf(),
        ensures
            r == self.len(),
    {
        self.cells as u64
    }

    /// The number of hash functions.
    pub fn num_hashes(&self) -> (r: u32)
        ensures
            r == self.spec_num_hashes(),
    {
        self.num_hashes
    }

    fn max_value(&self) -> (r: u32)
        requires
            self.wf(),
        ensures
            r as int == two_to(self.spec_bits()) - 1,
    {
        vv_max(&self.counters)
    }

    /// Counts an element in each cell it hashes to; returns whether every
    /// such cell was already non-zero. Fails when a counter would pass its
    /// largest value; the filter is then of no further use.
    pub fn insert(&mut self, item: &[u8]) -> (r: Result<bool, CounterOverflow>)
        requires
            old(self).wf(),
        ensures
            final(self).wf(),
            final(self).len() == old(self).len(),
            final(self).spec_keys() == old(self).spec_keys(),
            final(self).spec_num_hashes() == old(self).spec_num_hashes(),
            final(self).spec_bits() == old(self).spec_bits(),
            r is Ok ==> forall|j: int|
                0 <= j < old(self).len() ==> #[trigger] final(self).spec_counters()[j] == old(self).spec_counters()[j]
                    + old(self).hits(djb(item@), j, old(self).spec_num_hashes() as nat),
            r is Err <==> exists|j: int|
                0 <= j < old(self).len() && #[trigger] old(self).spec_counters()[j] + old(self).hits(
                    djb(item@),
                    j,
                    old(self).spec_num_hashes() as nat,
                ) > two_to(old(self).spec_bits()) - 1,
            r is Err ==> *final(self) == *old(self),
            r matches Ok(b) ==> b == forall|i: u32|
                i < old(self).spec_num_hashes() ==> old(self).spec_counters()[#[trigger] old(self).index_of(djb(item@), i)] != 0,
    {
        let present = self.contains(item);
        let x = elem_to_u32(item);
        let ghost t0 = *self;
        let max = self.max_value();
        let h1 = sip13(self.keys.0, self.keys.1, x);
        let h2 = sip13(self.keys.2, self.keys.3, x);
        let nn = self.cells;
        let n = nn as u64;
        let mut work: Vec<u32> = Vec::new();
        let mut c: usize = 0;
        while c < nn
            invariant
                c <= nn,
                self.wf(),
                nn == self.spec_counters().len(),
                work@ == self.spec_counters().take(c as int),
            decreases nn - c,
        {
            work.push(vv_get(&self.counters, c));
            c = c + 1;
            assert(work@ =~= self.spec_counters().take(c as int));
        }
        assert(work@ =~= self.spec_counters());
        let mut i: u32 = 0;
        while i < self.num_hashes
            invariant
                *self == t0,
                t0.wf(),
                nn == t0.spec_counters().len(),
                n == nn,
                work@.len() == nn,
                max as int == two_to(t0.bits_per_entry as nat) - 1,
                h1 == sip13_of(t0.keys.0, t0.keys.1, x),
                h2 == sip13_of(t0.keys.2, t0.keys.3, x),
                x == djb(item@),
                t0 == *old(self),
                i <= t0.num_hashes,
                forall|j: int| 0 <= j < t0.len() ==> #[trigger] work@[j] == t0.spec_counters()[j] + t0.hits(x, j, i as nat),
                forall|j: int| 0 <= j < t0.len() ==> #[trigger] work@[j] <= max,
            decreases t0.num_hashes - i,
        {
            let hv = hash_at(h1, h2, i);
            let idx = (hv % n) as usize;
            assert(t0.len() == nn);
            assert(idx as int == t0.index_of(x, i));
            let cur = work[idx];
            if cur >= max {
                proof {
                    lemma_hits_monotone(t0, x, idx as int, (i + 1) as nat, t0.num_hashes as nat);
                    assert(t0.spec_counters()[idx as int] + t0.hits(x, idx as int, t0.num_hashes as nat)
                        > two_to(t0.spec_bits()) - 1);
                }
                return Err(CounterOverflow);
            }
            work.set(idx, cur + 1);
            i = i + 1;
        }
        proof {
            assert forall|j: int| 0 <= j < t0.len() implies !(#[trigger] t0.spec_counters()[j] + t0.hits(
                x,
                j,
                t0.num_hashes as nat,
            ) > two_to(t0.spec_bits()) - 1) by {
                assert(work@[j] <= max);
            }
            assert forall|j: int| 0 <= j < work@.len() implies (#[trigger] work@[j]) < two_to(t0.bits_per_entry as nat) by {
                assert(work@[j] <= max);
            }
        }
        let mut k: usize = 0;
        while k < nn
            invariant
                k <= nn,
                t0.wf(),
                t0 == *old(self),
                nn == t0.spec_counters().len(),
                work@.len() == nn,
                self.cells == t0.cells,
                self.bits_per_entry == t0.bits_per_entry,
                self.num_hashes == t0.num_hashes,
                self.keys == t0.keys,
                valuevec_bits(self.counters) == t0.bits_per_entry,
                self.spec_counters().len() == nn,
                forall|j: int| 0 <= j < k ==> #[trigger] self.spec_counters()[j] == work@[j],
                forall|j: int| k <= j < nn ==> #[trigger] self.spec_counters()[j] == t0.spec_counters()[j],
                forall|j: int| 0 <= j < nn ==> (#[trigger] work@[j]) < two_to(t0.bits_per_entry as nat),
            decreases nn - k,
        {
            vv_set(&mut self.counters, k, work[k]);
            k = k + 1;
        }
        Ok(present)
    }

    /// The cells an element hashes to, one per hash function.
    pub fn indexes(&self, item: &[u8]) -> (r: Vec<usize>)
        requires
            self.wf(),
        ensures
            r@.len() == self.spec_num_hashes(),
            forall|i: int| 0 <= i < r@.len() ==> #[trigger] r@[i] as int == self.index_of(djb(item@), i as u32),
    {
        let x = elem_to_u32(item);
        let h1 = sip13(self.keys.0, self.keys.1, x);
        let h2 = sip13(self.keys.2, self.keys.3, x);
        let mut out: Vec<usize> = Vec::new();
        let mut i: u32 = 0;
        while i < self.num_hashes
            invariant
                self.wf(),
                i <= self.num_hashes,
                out@.len() == i,
                h1 == sip13_of(self.keys.0, self.keys.1, x),
                h2 == sip13_of(self.keys.2, self.keys.3, x),
                x == djb(item@),
                forall|q: int| 0 <= q < i ==> #[trigger] out@[q] as int == self.index_of(x, q as u32),
            decreases self.num_hashes - i,
        {
            let nn = self.cells;
            let hv = hash_at(h1, h2, i);
            let v = (hv % (nn as u64)) as usize;
            assert(v as int == self.index_of(x, i));
            out.push(v);
            i = i + 1;
        }
        out
    }

    /// Whether every cell the element hashes to is non-zero.
    pub fn contains(&self, item: &[u8]) -> (r: bool)
        requires
            self.wf(),
        ensures
            r == forall|i: u32| i < self.spec_num_hashes() ==> self.spec_counters()[#[trigger] self.index_of(djb(item@), i)] != 0,
    {
        let idx = self.indexes(item);
        let mut i: usize = 0;
        while i < idx.len()
            invariant
                self.wf(),
                idx@.len() == self.spec_num_hashes(),
                i <= idx@.len(),
                forall|q: int| 0 <= q < idx@.len() ==> #[trigger] idx@[q] as int == self.index_of(djb(item@), q as u32),
                forall|q: u32| q < i ==> self.spec_counters()[#[trigger] self.index_of(djb(item@), q)] != 0,
            decreases idx@.len() - i,
        {
            if vv_get(&self.counters, idx[i]) == 0 {
                assert(self.index_of(djb(item@), i as u32) == idx@[i as int]);
                return false;
            }
            proof {
                assert forall|q: u32| q < i + 1 implies self.spec_counters()[#[trigger] self.index_of(djb(item@), q)] != 0 by {
                    if q == i {
                        assert(idx@[q as int] as int == self.index_of(djb(item@), q));
                    }
                }
            }
            i = i + 1;
        }
        true
    }

    /// Sets each counter to this filter's less `other`'s, when no counter
    /// of `other` is larger; otherwise leaves it as it was and fails.
    fn subtract(&mut self, other: &Self) -> (r: bool)
        requires
            old(self).wf(),
            other.wf(),
            old(self).len() == other.len(),
        ensures
            final(self).wf(),
            final(self).len() == old(self).len(),
            final(self).spec_keys() == old(self).spec_keys(),
            final(self).spec_num_hashes() == old(self).spec_num_hashes(),
            r ==> forall|j: int|
                0 <= j < old(self).len() ==> #[trigger] final(self).spec_counters()[j] == old(self).spec_counters()[j]
                    - other.spec_counters()[j],
            !r <==> exists|j: int| 0 <= j < old(self).len() && old(self).spec_counters()[j] < other.spec_counters()[j],
    {
        let n = self.cells;
        let mut i: usize = 0;
        while i < n
            invariant
                *self == *old(self),
                self.wf(),
                other.wf(),
                n == self.spec_counters().len(),
                n == old(self).spec_counters().len(),
                n == other.spec_counters().len(),
                forall|j: int| 0 <= j < i ==> old(self).spec_counters()[j] >= other.spec_counters()[j],
            decreases n - i,
        {
            if vv_get(&self.counters, i) < vv_get(&other.counters, i) {
                assert(old(self).spec_counters()[i as int] < other.spec_counters()[i as int]);
                return false;
            }
            i = i + 1;
        }
        let ghost c0 = self.spec_counters();
        let mut k: usize = 0;
        while k < n
            invariant
                self.wf(),
                other.wf(),
                n == self.spec_counters().len(),
                n == c0.len(),
                c0 == old(self).spec_counters(),
                n == other.spec_counters().len(),
                self.cells == old(self).cells,
                self.keys == old(self).keys,
                self.num_hashes == old(self).num_hashes,
                self.bits_per_entry == old(self).bits_per_entry,
                forall|j: int| 0 <= j < n ==> c0[j] >= other.spec_counters()[j],
                forall|j: int| 0 <= j < k ==> #[trigger] self.spec_counters()[j] == c0[j] - other.spec_counters()[j],
                forall|j: int| k <= j < n ==> #[trigger] self.spec_counters()[j] == c0[j],
            decreases n - k,
        {
            let v = vv_get(&self.counters, k) - vv_get(&other.counters, k);
            vv_set(&mut self.counters, k, v);
            k = k + 1;
        }
        true
    }
}

/// How many hashes of the entries of `log` fall in cell `j` of `f`.
pub open spec fn log_count(f: CountingBloomFilter, log: Seq<Vec<u8>>, j: int) -> int
    decreases log.len(),
{
    if log.len() == 0 {
        0
    } else {
        log_count(f, log.drop_last(), j) + f.hits(djb(log.last()@), j, f.spec_num_hashes() as nat)
    }
}

/// The log entries all of whose cells are non-zero in the difference of
/// the log's filter and `f`.
pub open spec fn cbf_cands(f: CountingBloomFilter, log: Seq<Vec<u8>>) -> Seq<bool> {
    Seq::new(
        log.len(),
        |q: int|
            forall|i: u32|
                i < f.spec_num_hashes() ==> log_count(f, log, #[trigger] f.index_of(djb(log[q]@), i))
                    - f.spec_counters()[f.index_of(djb(log[q]@), i)] != 0,
    )
}

proof fn lemma_log_count_prefix(f: CountingBloomFilter, log: Seq<Vec<u8>>, j: int, a: nat)
    requires
        a <= log.len(),
    ensures
        log_count(f, log.take(a as int), j) <= log_count(f, log, j),
    decreases log.len() - a,
{
    if a < log.len() {
        assert(log.take((a + 1) as int).drop_last() =~= log.take(a as int));
        lemma_log_count_prefix(f, log, j, a + 1);
    } else {
        assert(log.take(a as int) =~= log);
    }
}

proof fn lemma_hits_same_cbf(a: CountingBloomFilter, b: CountingBloomFilter, x: u32, j: int, n: nat)
    requires
        a.spec_keys() == b.spec_keys(),
        a.len() == b.len(),
    ensures
        a.hits(x, j, n) == b.hits(x, j, n),
    decreases n,
{
    if n > 0 {
        lemma_hits_same_cbf(a, b, x, j, (n - 1) as nat);
    }
}

proof fn lemma_hits_monotone(t: CountingBloomFilter, x: u32, j: int, a: nat, b: nat)
    requires
        a <= b,
    ensures
        t.hits(x, j, a) <= t.hits(x, j, b),
    decreases b - a,
{
    if a < b {
        lemma_hits_monotone(t, x, j, a, (b - 1) as nat);
    }
}

/// Default bits per counter of the CBF accumulator.
pub const CBF_BITS_PER_ENTRY: usize = 16;

/// Default cells per element of the threshold.
pub const CBF_CELLS_MULTIPLIER: usize = 10;

/// Default hash functions per element.
pub const CBF_NUM_HASHES: u32 = 2;

/// The CBF accumulator: the multiset hash of the processed elements and
/// their counting Bloom filter.
pub struct CBFAccumulator {
    pub digest: AdditiveMsetHash,
    pub cbf: CountingBloomFilter,
}

impl CBFAccumulator {
    pub open spec fn wf(&self) -> bool {
        self.cbf.wf()
    }

    /// An empty accumulator sized for `threshold` drops.
    pub fn new(threshold: usize, seed: Option<u64>) -> (r: Self)
        requires
            0 < threshold <= usize::MAX / 160,
        ensures
            r.wf(),
            r.digest.count == 0,
            r.digest.hash_value() == crate::digest::le_nat(crate::digest::tagged_hash(0, r.digest.nonce@)),
            seed matches Some(s) ==> r.digest.nonce@ == crate::accumulator::seed_nonce(s),
            forall|j: int| 0 <= j < r.cbf.len() ==> #[trigger] r.cbf.spec_counters()[j] == 0,
    {
        let digest = match seed {
            Some(s) => AdditiveMsetHash::new_with_seed(crate::accumulator::nonce_from_seed(s)),
            None => AdditiveMsetHash::new(),
        };
        Self {
            digest,
            cbf: CountingBloomFilter::new(CBF_BITS_PER_ENTRY, CBF_CELLS_MULTIPLIER * threshold, CBF_NUM_HASHES, seed),
        }
    }

    /// Processes one element. Fails when a counter overflows.
    pub fn process(&mut self, elem: &[u8]) -> (r: Result<(), CounterOverflow>)
        requires
            old(self).wf(),
        ensures
            final(self).wf(),
            final(self).digest.count == old(self).digest.count.wrapping_add(1),
            final(self).digest.nonce == old(self).digest.nonce,
            final(self).digest.hash_value() == (old(self).digest.hash_value() + crate::digest::le_nat(
                crate::digest::tagged_hash(1, elem@),
            )) % crate::digest::hash_modulus(),
            final(self).cbf.len() == old(self).cbf.len(),
            r is Ok ==> forall|j: int|
                0 <= j < old(self).cbf.len() ==> #[trigger] final(self).cbf.spec_counters()[j]
                    == old(self).cbf.spec_counters()[j] + old(self).cbf.hits(
                    djb(elem@),
                    j,
                    old(self).cbf.spec_num_hashes() as nat,
                ),
            r is Err ==> final(self).cbf == old(self).cbf,
    {
        self.digest.add(elem);
        match self.cbf.insert(elem) {
            Ok(_) => Ok(()),
            Err(e) => Err(e),
        }
    }

    /// Processes each element of `elems` in turn; stops at an overflow.
    pub fn process_batch(&mut self, elems: &Vec<Vec<u8>>) -> (r: Result<(), CounterOverflow>)
        requires
            old(self).wf(),
        ensures
            final(self).wf(),
            final(self).digest.nonce == old(self).digest.nonce,
            r is Ok ==> final(self).digest.hash_value() == crate::digest::amh_extend(
                old(self).digest.hash_value(),
                views(elems@),
            ),
            r is Ok ==> final(self).digest.count == (old(self).digest.count + elems@.len()) % 0x1_0000_0000,
    {
        let mut i: usize = 0;
        assert(views(elems@).skip(0) =~= views(elems@));
        while i < elems.len()
            invariant
                self.wf(),
                i <= elems@.len(),
                self.digest.nonce == old(self).digest.nonce,
                self.digest.count == (old(self).digest.count + i) % 0x1_0000_0000,
                crate::digest::amh_extend(self.digest.hash_value(), views(elems@).skip(i as int))
                    == crate::digest::amh_extend(old(self).digest.hash_value(), views(elems@)),
            decreases elems@.len() - i,
        {
            proof {
                assert(views(elems@).skip(i as int).drop_first() =~= views(elems@).skip(i + 1));
                assert(views(elems@).skip(i as int)[0] == elems@[i as int]@);
            }
            match self.process(elems[i].as_slice()) {
                Ok(()) => {},
                Err(e) => {
                    return Err(e);
                },
            }
            i = i + 1;
        }
        assert(views(elems@).skip(elems@.len() as int).len() == 0);
        Ok(())
    }

    /// The number of elements processed.
    pub fn total(&self) -> (r: usize)
        ensures
            r == self.digest.count,
    {
        self.digest.count as usize
    }

    /// Checks that the processed elements are a sub-multiset of `elems`.
    ///
    /// The difference of the log's filter and ours must have no negative
    /// counter; the dropped elements are searched for among the log entries
    /// whose cells are all non-zero in it, and the kept entries must hash to
    /// our digest.
    pub fn validate(&self, elems: &Vec<Vec<u8>>) -> (r: ValidationResult)
        requires
            self.wf(),
        ensures
            r == ValidationResult::Valid || r == ValidationResult::Invalid,
            elems@.len() < self.digest.count ==> r == ValidationResult::Invalid,
            elems@.len() == self.digest.count ==> (r == ValidationResult::Valid <==> amh_value(
                self.digest.nonce@,
                views(elems@),
            ) == self.digest.hash_value()),
            r.spec_is_valid() ==> explains(views(elems@), self.digest),
            elems@.len() > self.digest.count && (exists|j: int|
                0 <= j < self.cbf.len() && #[trigger] log_count(self.cbf, elems@, j) < self.cbf.spec_counters()[j])
                ==> r == ValidationResult::Invalid,
            (elems@.len() > self.digest.count && (forall|j: int|
                0 <= j < self.cbf.len() ==> self.cbf.spec_counters()[j] <= #[trigger] log_count(self.cbf, elems@, j)
                    <= two_to(self.cbf.spec_bits()) - 1) && exists|keep: Seq<bool>|
                #[trigger] fits(
                    views(elems@),
                    cbf_cands(self.cbf, elems@),
                    0,
                    elems@.len() - self.digest.count,
                    crate::digest::le_nat(crate::digest::tagged_hash(0, self.digest.nonce@)),
                    self.digest.hash_value(),
                    keep,
                )) ==> r == ValidationResult::Valid,
    {
        let total = self.digest.count as usize;
        if elems.len() < total {
            return ValidationResult::Invalid;
        }
        let d = elems.len() - total;
        let start = AdditiveMsetHash::new_with_seed(self.digest.nonce);
        if d == 0 {
            let all = digest_all(elems, start);
            if same(&all.hash, &self.digest.hash) {
                proof {
                    let keep = Seq::new(elems@.len(), |k: int| true);
                    lemma_select_all(views(elems@), keep);
                }
                return ValidationResult::Valid;
            }
            proof {
                if amh_value(self.digest.nonce@, views(elems@)) == self.digest.hash_value() {
                    crate::digest::lemma_le_nat_injective(all.hash@, self.digest.hash@);
                }
            }
            return ValidationResult::Invalid;
        }
        // the filter of the log, less ours
        let mut diff = self.cbf.empty_clone();
        let mut e: usize = 0;
        assert(elems@.take(0) =~= Seq::<Vec<u8>>::empty());
        while e < elems.len()
            invariant
                diff.wf(),
                self.wf(),
                diff.len() == self.cbf.len(),
                diff.spec_keys() == self.cbf.spec_keys(),
                diff.spec_num_hashes() == self.cbf.spec_num_hashes(),
                diff.spec_bits() == self.cbf.spec_bits(),
                e <= elems@.len(),
                elems@.len() != self.digest.count,
                forall|j: int| 0 <= j < diff.len() ==> #[trigger] diff.spec_counters()[j] == log_count(self.cbf, elems@.take(e as int), j),
            decreases elems@.len() - e,
        {
            let ghost before = diff;
            if diff.insert(elems[e].as_slice()).is_err() {
                proof {
                    if forall|j: int| 0 <= j < self.cbf.len() ==> self.cbf.spec_counters()[j] <= #[trigger] log_count(
                        self.cbf,
                        elems@,
                        j,
                    ) <= two_to(self.cbf.spec_bits()) - 1 {
                        let j = choose|j: int|
                            0 <= j < before.len() && #[trigger] before.spec_counters()[j] + before.hits(
                                djb(elems@[e as int]@),
                                j,
                                before.spec_num_hashes() as nat,
                            ) > two_to(before.spec_bits()) - 1;
                        lemma_hits_same_cbf(before, self.cbf, djb(elems@[e as int]@), j, self.cbf.spec_num_hashes() as nat);
                        assert(elems@.take(e + 1).drop_last() =~= elems@.take(e as int));
                        assert(elems@.take(e + 1).last() == elems@[e as int]);
                        assert(before.spec_counters()[j] == log_count(self.cbf, elems@.take(e as int), j));
                        assert(log_count(self.cbf, elems@.take(e + 1), j) > two_to(self.cbf.spec_bits()) - 1);
                        lemma_log_count_prefix(self.cbf, elems@, j, (e + 1) as nat);
                        assert(elems@.take(elems@.len() as int) =~= elems@);
                        assert(log_count(self.cbf, elems@, j) <= two_to(self.cbf.spec_bits()) - 1);
                    }
                }
                return ValidationResult::Invalid;
            }
            proof {
                assert(elems@.take(e + 1).drop_last() =~= elems@.take(e as int));
                assert forall|j: int| 0 <= j < diff.len() implies #[trigger] diff.spec_counters()[j] == log_count(
                    self.cbf,
                    elems@.take(e + 1),
                    j,
                ) by {
                    lemma_hits_same_cbf(before, self.cbf, djb(elems@[e as int]@), j, self.cbf.spec_num_hashes() as nat);
                }
            }
            e = e + 1;
        }
        assert(elems@.take(elems@.len() as int) =~= elems@);
        let ghost pre = diff;
        if !diff.subtract(&self.cbf) {
            proof {
                let j = choose|j: int| 0 <= j < pre.len() && pre.spec_counters()[j] < self.cbf.spec_counters()[j];
                assert(pre.spec_counters()[j] == log_count(self.cbf, elems@, j));
            }
            return ValidationResult::Invalid;
        }
        let ghost cc = cbf_cands(self.cbf, elems@);
        let mut cand: Vec<bool> = Vec::new();
        let mut k: usize = 0;
        while k < elems.len()
            invariant
                k <= elems@.len(),
                cand@.len() == k,
                diff.wf(),
                diff.len() == self.cbf.len(),
                diff.spec_keys() == self.cbf.spec_keys(),
                diff.spec_num_hashes() == self.cbf.spec_num_hashes(),
                forall|j: int| 0 <= j < diff.len() ==> #[trigger] diff.spec_counters()[j] == log_count(self.cbf, elems@, j)
                    - self.cbf.spec_counters()[j],
                cc == cbf_cands(self.cbf, elems@),
                forall|q: int| 0 <= q < k ==> #[trigger] cand@[q] == cc[q],
            decreases elems@.len() - k,
        {
            let c = diff.contains(elems[k].as_slice());
            proof {
                let x = djb(elems@[k as int]@);
                assert forall|i: u32| i < self.cbf.spec_num_hashes() implies #[trigger] diff.index_of(x, i) == self.cbf.index_of(x, i)
                    && 0 <= self.cbf.index_of(x, i) < self.cbf.len() by {}
                assert(c == cc[k as int]) by {
                    if c {
                        assert forall|i: u32| i < self.cbf.spec_num_hashes() implies log_count(
                            self.cbf,
                            elems@,
                            #[trigger] self.cbf.index_of(x, i),
                        ) - self.cbf.spec_counters()[self.cbf.index_of(x, i)] != 0 by {
                            assert(diff.spec_counters()[diff.index_of(x, i)] != 0);
                        }
                    } else {
                        let i = choose|i: u32| i < diff.spec_num_hashes() && !(diff.spec_counters()[#[trigger] diff.index_of(x, i)] != 0);
                        assert(log_count(self.cbf, elems@, self.cbf.index_of(x, i)) - self.cbf.spec_counters()[self.cbf.index_of(x, i)] == 0);
                    }
                }
            }
            cand.push(c);
            k = k + 1;
        }
        assert(cand@ =~= cc);
        assert(views(elems@).skip(0) =~= views(elems@));
        let found = search(elems, &cand, &count_after(&cand), 0, d, start, &self.digest);
        if found {
            proof {
                assert(views(elems@).skip(0) =~= views(elems@));
            }
            ValidationResult::Valid
        } else {
            ValidationResult::Invalid
        }
    }
}

} // verus!
