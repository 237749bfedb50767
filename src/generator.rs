//! Load generators for tests and benchmarks: a log of random packets and
//! the stream of packets a router actually receives from it.
use vstd::prelude::*;
use rand::Rng;
use rand::SeedableRng;
use rand_chacha::ChaCha12Rng;

verus! {

/// Bytes in a generated packet.
pub const NBYTES: usize = 16;

#[verifier::external_type_specification]
#[verifier::external_body]
pub struct ExChaCha12Rng(ChaCha12Rng);

/// Relies on rand_core's `SeedableRng::seed_from_u64`: a generator that
/// depends on the seed alone.
#[verifier::external_body]
fn rng_from_seed(seed: u64) -> (r: ChaCha12Rng) {
    ChaCha12Rng::seed_from_u64(seed)
}

/// Relies on rand_core's `SeedableRng::from_entropy`: a generator seeded
/// by the system.
#[verifier::external_body]
fn rng_from_entropy() -> (r: ChaCha12Rng) {
    ChaCha12Rng::from_entropy()
}

/// Relies on rand's `Rng::gen` for `u8`.
#[verifier::external_body]
fn gen_byte(rng: &mut ChaCha12Rng) -> (r: u8) {
    rng.gen::<u8>()
}

/// Relies on rand's `Rng::gen` for `u64`.
#[verifier::external_body]
fn gen_u64(rng: &mut ChaCha12Rng) -> (r: u64) {
    rng.gen::<u64>()
}

/// Relies on rand's `Rng::gen_range` on `0..n`, which returns a value in
/// the range and panics only on an empty one.
#[verifier::external_body]
fn gen_below(rng: &mut ChaCha12Rng, n: usize) -> (r: usize)
    requires
        n > 0,
    ensures
        r < n,
{
    rng.gen_range(0..n)
}

/// The packet a malicious router sends: all zeros. No logged packet is it.
pub open spec fn malicious_elem_spec() -> Seq<u8> {
    Seq::new(16, |i: int| 0u8)
}

/// The packet a malicious router sends.
pub fn malicious_elem() -> (r: Vec<u8>)
    ensures
        r@ == malicious_elem_spec(),
{
    let mut v: Vec<u8> = Vec::new();
    let mut i: usize = 0;
    while i < NBYTES
        invariant
            i <= NBYTES,
            v@ == Seq::new(i as nat, |k: int| 0u8),
        decreases NBYTES - i,
    {
        v.push(0);
        i = i + 1;
        assert(v@ =~= Seq::new(i as nat, |k: int| 0u8));
    }
    v
}

/// A random packet that is not the malicious one.
fn gen_elem(rng: &mut ChaCha12Rng) -> (r: Vec<u8>)
    ensures
        r@.len() == NBYTES,
        r@ != malicious_elem_spec(),
{
    let mut v: Vec<u8> = Vec::new();
    let mut nonzero = false;
    let mut i: usize = 0;
    while i < NBYTES
        invariant
            i <= NBYTES,
            v@.len() == i,
            nonzero == exists|k: int| 0 <= k < i && v@[k] != 0,
        decreases NBYTES - i,
    {
        let b = gen_byte(rng);
        let ghost old_v = v@;
        let ghost before = nonzero;
        v.push(b);
        proof {
            assert(v@ == old_v.push(b));
            if before {
                let k = choose|k: int| 0 <= k < i && old_v[k] != 0;
                assert(v@[k] != 0);
            } else if b != 0 {
                assert(v@[i as int] != 0);
            } else {
                assert forall|k: int| 0 <= k < i + 1 implies v@[k] == 0 by {
                    if k < i {
                        assert(!(old_v[k] != 0));
                    }
                }
            }
        }
        if b != 0 {
            nonzero = true;
        }
        i = i + 1;
    }
    if !nonzero {
        // the one packet that stands for the malicious one is skipped
        v.set(NBYTES - 1, 1);
        assert(v@[NBYTES - 1] != malicious_elem_spec()[NBYTES - 1]);
    } else {
        proof {
            let k = choose|k: int| 0 <= k < NBYTES && v@[k] != 0;
            assert(v@[k] != malicious_elem_spec()[k]);
        }
    }
    v
}

fn copy_bytes(v: &Vec<u8>) -> (r: Vec<u8>)
    ensures
        r@ == v@,
{
    let mut out: Vec<u8> = Vec::new();
    let mut i: usize = 0;
    while i < v.len()
        invariant
            i <= v@.len(),
            out@ == v@.take(i as int),
        decreases v@.len() - i,
    {
        out.push(v[i]);
        i = i + 1;
        assert(out@ =~= v@.take(i as int));
    }
    assert(v@.take(v@.len() as int) =~= v@);
    out
}

/// The number of set flags.
pub open spec fn count_true(s: Seq<bool>) -> nat
    decreases s.len(),
{
    if s.len() == 0 {
        0
    } else {
        count_true(s.drop_last()) + if s.last() { 1nat } else { 0nat }
    }
}

proof fn lemma_count_true_set(s: Seq<bool>, i: int)
    requires
        0 <= i < s.len(),
        !s[i],
    ensures
        count_true(s.update(i, true)) == count_true(s) + 1,
    decreases s.len(),
{
    if i < s.len() - 1 {
        assert(s.update(i, true).drop_last() =~= s.drop_last().update(i, true));
        lemma_count_true_set(s.drop_last(), i);
    } else {
        assert(s.update(i, true).drop_last() =~= s.drop_last());
    }
}

proof fn lemma_count_none(s: Seq<bool>)
    requires
        forall|k: int| 0 <= k < s.len() ==> !s[k],
    ensures
        count_true(s) == 0,
    decreases s.len(),
{
    if s.len() > 0 {
        lemma_count_none(s.drop_last());
    }
}

proof fn lemma_count_true_le(s: Seq<bool>)
    ensures
        count_true(s) <= s.len(),
    decreases s.len(),
{
    if s.len() > 0 {
        lemma_count_true_le(s.drop_last());
    }
}

/// Hands out seeds, from a seeded generator when there is a seed.
pub struct SeedGenerator {
    rng: Option<ChaCha12Rng>,
}

impl SeedGenerator {
    /// A seed generator seeded with `seed`, or one that hands out nothing.
    pub fn new(seed: Option<u64>) -> (r: Self)
        ensures
            r.spec_seeded() == seed.is_some(),
    {
        match seed {
            Some(s) => SeedGenerator { rng: Some(rng_from_seed(s)) },
            None => SeedGenerator { rng: None },
        }
    }

    /// There is a generator.
    pub closed spec fn spec_seeded(&self) -> bool {
        self.rng.is_some()
    }

    /// The next seed, if there is a generator.
    pub fn next(&mut self) -> (r: Option<u64>)
        ensures
            r.is_some() == old(self).spec_seeded(),
            final(self).spec_seeded() == old(self).spec_seeded(),
    {
        match &mut self.rng {
            Some(rng) => Some(gen_u64(rng)),
            None => None,
        }
    }
}

/// What a load generator tells of the log it made.
pub trait LoadGeneratorInner {
    spec fn spec_log(&self) -> Seq<Vec<u8>>;

    spec fn spec_num_logged(&self) -> usize;

    spec fn spec_num_dropped(&self) -> usize;

    /// The logged packets.
    fn log(&self) -> (r: &Vec<Vec<u8>>)
        ensures
            r@ == self.spec_log(),
    ;

    /// The number of logged packets.
    fn num_logged(&self) -> (r: usize)
        ensures
            r == self.spec_num_logged(),
    ;

    /// The number of packets dropped so far.
    fn num_dropped(&self) -> (r: usize)
        ensures
            r == self.spec_num_dropped(),
    ;
}

/// A load generator: hands out the packets the receiver gets, in order.
pub trait LoadGenerator: LoadGeneratorInner {

}

/// Logs `num_logged` random packets and drops exactly `n_dropped` of them;
/// a malicious router sends the malicious packet in place of one logged
/// packet, which is never dropped.
pub struct LoadGeneratorExact {
    /// The logged packets, none of them the malicious one.
    log: Vec<Vec<u8>>,
    /// Which packets are dropped.
    dropped: Vec<bool>,
    /// The packet that the malicious packet replaces.
    malicious_i: Option<usize>,
    num_logged: usize,
    num_dropped: usize,
    /// The next packet to hand out.
    index: usize,
}

impl LoadGeneratorExact {
    pub closed spec fn wf(&self) -> bool {
        &&& self.log@.len() == self.num_logged
        &&& self.dropped@.len() == self.num_logged
        &&& self.index <= self.num_logged
        &&& self.num_dropped == count_true(self.dropped@.take(self.index as int))
        &&& (self.malicious_i matches Some(m) ==> m < self.num_logged && !self.dropped@[m as int])
        &&& forall|i: int| 0 <= i < self.log@.len() ==> (#[trigger] self.log@[i])@ != malicious_elem_spec()
    }

    /// The number of packets dropped in all.
    pub closed spec fn total_dropped(&self) -> nat {
        count_true(self.dropped@)
    }

    /// The packet at position `i` is dropped.
    pub closed spec fn is_dropped(&self, i: int) -> bool {
        self.dropped@[i]
    }

    /// The position the malicious packet stands in.
    pub closed spec fn spec_malicious(&self) -> Option<usize> {
        self.malicious_i
    }

    /// The next position to hand out.
    pub closed spec fn spec_index(&self) -> usize {
        self.index
    }

    /// A generator of `num_logged` packets, `n_dropped` of them dropped,
    /// from `seed` when there is one.
    pub fn new(seed: Option<u64>, num_logged: usize, n_dropped: usize, malicious: bool) -> (r: Self)
        requires
            if malicious { n_dropped < num_logged } else { n_dropped <= num_logged },
        ensures
            r.wf(),
            r.spec_num_logged() == num_logged,
            r.spec_num_dropped() == 0,
            r.spec_index() == 0,
            r.total_dropped() == n_dropped,
            r.spec_malicious().is_some() == malicious,
    {
        let mut rng = match seed {
            Some(s) => rng_from_seed(s),
            None => rng_from_entropy(),
        };
        let mut log: Vec<Vec<u8>> = Vec::new();
        let mut i: usize = 0;
        while i < num_logged
            invariant
                i <= num_logged,
                log@.len() == i,
                forall|k: int| 0 <= k < i ==> (#[trigger] log@[k])@ != malicious_elem_spec(),
            decreases num_logged - i,
        {
            log.push(gen_elem(&mut rng));
            i = i + 1;
        }
        let malicious_i = if malicious {
            Some(gen_below(&mut rng, num_logged))
        } else {
            None
        };
        // choose the dropped packets among the others, each once
        let mut avail: Vec<usize> = Vec::new();
        let mut dropped: Vec<bool> = Vec::new();
        let mut j: usize = 0;
        while j < num_logged
            invariant
                j <= num_logged,
                dropped@.len() == j,
                avail@.len() <= j,
                forall|k: int| 0 <= k < j ==> !(#[trigger] dropped@[k]),
                forall|k: int| 0 <= k < avail@.len() ==> #[trigger] avail@[k] < j && Some(avail@[k]) != malicious_i,
                avail@.no_duplicates(),
                malicious_i matches Some(m) ==> (m < j ==> avail@.len() == j - 1),
                malicious_i matches Some(m) ==> (m >= j ==> avail@.len() == j),
                malicious_i.is_none() ==> avail@.len() == j,
            decreases num_logged - j,
        {
            dropped.push(false);
            if malicious_i != Some(j) {
                assert(malicious_i matches Some(m) ==> m != j);
                let ghost before = avail@;
                avail.push(j);
                proof {
                    assert forall|a: int, b: int| 0 <= a < b < avail@.len() implies avail@[a] != avail@[b] by {
                        if b == before.len() {
                            assert(before[a] < j);
                        } else {
                            assert(before[a] != before[b]);
                        }
                    }
                }
            }
            j = j + 1;
        }
        let mut k: usize = 0;
        proof {
            assert(dropped@.take(0) =~= Seq::<bool>::empty());
            assert forall|k: int| 0 <= k < dropped@.len() implies !dropped@[k] by {}
            lemma_count_none(dropped@);
        }
        while k < n_dropped
            invariant
                k <= n_dropped,
                n_dropped <= avail@.len(),
                dropped@.len() == num_logged,
                avail@.no_duplicates(),
                forall|q: int| 0 <= q < avail@.len() ==> #[trigger] avail@[q] < num_logged && Some(avail@[q]) != malicious_i,
                malicious_i matches Some(m) ==> m < num_logged && !dropped@[m as int],
                forall|q: int| 0 <= q < k ==> #[trigger] dropped@[avail@[q] as int],
                forall|x: int| 0 <= x < num_logged && #[trigger] dropped@[x] ==> exists|q: int| 0 <= q < k && avail@[q] == x,
                count_true(dropped@) == k,
            decreases n_dropped - k,
        {
            let pick = k + gen_below(&mut rng, avail.len() - k);
            let a = avail[k];
            let b = avail[pick];
            let ghost av0 = avail@;
            let ghost dr0 = dropped@;
            proof {
                if dr0[b as int] {
                    let q = choose|q: int| 0 <= q < k && av0[q] == b;
                    assert(av0[q] == av0[pick as int]);
                }
            }
            avail.set(k, b);
            avail.set(pick, a);
            dropped.set(b, true);
            proof {
                lemma_count_true_set(dr0, b as int);
                assert forall|x: int, y: int| 0 <= x < y < avail@.len() implies avail@[x] != avail@[y] by {
                    let fx = if x == k { pick as int } else if x == pick { k as int } else { x };
                    let fy = if y == k { pick as int } else if y == pick { k as int } else { y };
                    assert(avail@[x] == av0[fx]);
                    assert(avail@[y] == av0[fy]);
                    assert(fx != fy);
                }
                assert forall|q: int| 0 <= q < k + 1 implies #[trigger] dropped@[avail@[q] as int] by {
                    if q < k {
                        assert(avail@[q] == av0[q]);
                    }
                }
                assert forall|x: int| 0 <= x < num_logged && #[trigger] dropped@[x] implies exists|q: int| 0 <= q < k + 1 && avail@[q] == x by {
                    if x == b {
                        assert(avail@[k as int] == x);
                    } else {
                        assert(dr0[x]);
                        let q = choose|q: int| 0 <= q < k && av0[q] == x;
                        assert(avail@[q] == x);
                    }
                }
                if let Some(m) = malicious_i {
                    assert(b != m);
                }
            }
            k = k + 1;
        }
        LoadGeneratorExact { log, dropped, malicious_i, num_logged, num_dropped: 0, index: 0 }
    }

    /// The next packet the receiver gets, if any is left.
    pub fn next(&mut self) -> (r: Option<Vec<u8>>)
        requires
            old(self).wf(),
        ensures
            final(self).wf(),
            final(self).spec_num_logged() == old(self).spec_num_logged(),
            final(self).spec_log() == old(self).spec_log(),
            old(self).spec_index() <= final(self).spec_index(),
            r.is_none() ==> final(self).spec_index() == old(self).spec_num_logged(),
            r.is_none() ==> final(self).spec_num_dropped() == final(self).total_dropped(),
            final(self).total_dropped() == old(self).total_dropped(),
            r.is_some() ==> final(self).spec_index() > old(self).spec_index(),
            forall|p: int|
                old(self).spec_index() <= p < final(self).spec_index() - (if r.is_some() { 1int } else { 0 })
                    ==> #[trigger] old(self).is_dropped(p) && old(self).spec_malicious() != Some(p as usize),
            final(self).spec_num_dropped() == old(self).spec_num_dropped() + (final(self).spec_index()
                - old(self).spec_index()) - (if r.is_some() { 1int } else { 0 }),
            r matches Some(v) ==> ({
                let p = final(self).spec_index() - 1;
                if old(self).spec_malicious() == Some(p as usize) {
                    v@ == malicious_elem_spec()
                } else {
                    !old(self).is_dropped(p) && v@ == old(self).spec_log()[p]@
                }
            }),
    {
        let ghost start = self.index;
        let ghost dropped0 = self.num_dropped;
        loop
            invariant
                self.wf(),
                self.log == old(self).log,
                self.dropped == old(self).dropped,
                self.malicious_i == old(self).malicious_i,
                self.num_logged == old(self).num_logged,
                start == old(self).index,
                start <= self.index,
                self.num_dropped == old(self).num_dropped + (self.index - start),
                forall|p: int| start <= p < self.index ==> #[trigger] self.dropped@[p] && self.malicious_i != Some(p as usize),
            decreases self.num_logged - self.index,
        {
            if self.index >= self.log.len() {
                assert(self.dropped@.take(self.index as int) =~= self.dropped@);
                return None;
            }
            self.index = self.index + 1;
            proof {
                assert(self.dropped@.take(self.index as int).drop_last() =~= self.dropped@.take(self.index - 1));
                lemma_count_true_le(self.dropped@.take(self.index as int));
            }
            if let Some(m) = self.malicious_i {
                if m == self.index - 1 {
                    self.num_dropped = self.num_dropped;
                    return Some(malicious_elem());
                }
            }
            if self.dropped[self.index - 1] {
                self.num_dropped = self.num_dropped + 1;
            } else {
                return Some(copy_bytes(&self.log[self.index - 1]));
            }
        }
    }
}

impl LoadGeneratorInner for LoadGeneratorExact {
    closed spec fn spec_log(&self) -> Seq<Vec<u8>> {
        self.log@
    }

    closed spec fn spec_num_logged(&self) -> usize {
        self.num_logged
    }

    closed spec fn spec_num_dropped(&self) -> usize {
        self.num_dropped
    }

    fn log(&self) -> (r: &Vec<Vec<u8>>) {
        &self.log
    }

    fn num_logged(&self) -> (r: usize) {
        self.num_logged
    }

    fn num_dropped(&self) -> (r: usize) {
        self.num_dropped
    }
}

impl LoadGenerator for LoadGeneratorExact {

}

} // verus!
