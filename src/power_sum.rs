//! The power-sum quACK: the first `threshold` power sums of a multiset of
//! 32-bit elements, taken in the prime field.
use vstd::prelude::*;
use vstd::arithmetic::power::pow;
use vstd::arithmetic::div_mod::{
    lemma_add_mod_noop_right, lemma_mul_mod_noop_left, lemma_sub_mod_noop_right, lemma_mod_twice,
    lemma_small_mod,
};
use crate::field::{
    add_and_mod, fmod, inv, inverse, lemma_inverse_unique, modulus, mul_and_mod, sub_and_mod,
    LARGE_PRIME_U32,
};
use crate::wire::{le32, read_u32_le, write_u32_le};

verus! {

/// A sequence of `u32` as mathematical integers.
pub open spec fn ints(v: Seq<u32>) -> Seq<int> {
    v.map_values(|x: u32| x as int)
}

/// Every entry is a canonical field element.
pub open spec fn canonical(s: Seq<int>) -> bool {
    forall|i: int| 0 <= i < s.len() ==> 0 <= #[trigger] s[i] < modulus()
}

/// The power sums `s` after `x` is added to the multiset.
pub open spec fn inserted(s: Seq<int>, x: int) -> Seq<int> {
    Seq::new(s.len(), |i: int| fmod(s[i] + pow(x, (i + 1) as nat)))
}

/// The power sums `s` after `x` is taken out of the multiset.
pub open spec fn removed(s: Seq<int>, x: int) -> Seq<int> {
    Seq::new(s.len(), |i: int| fmod(s[i] - pow(x, (i + 1) as nat)))
}

/// The entrywise difference of two vectors of power sums, as long as the
/// shorter one.
pub open spec fn subtracted(a: Seq<int>, b: Seq<int>) -> Seq<int> {
    Seq::new(
        if a.len() <= b.len() { a.len() } else { b.len() },
        |i: int| fmod(a[i] - b[i]),
    )
}

/// `n` zero power sums.
pub open spec fn zeros(n: nat) -> Seq<int> {
    Seq::new(n, |i: int| 0)
}

/// The running sum `-(p[0] c[i-1] + ... + p[j-1] c[i-j])` of Newton's
/// identities.
pub open spec fn newton_acc(p: Seq<int>, c: Seq<int>, i: int, j: nat) -> int
    decreases j,
{
    if j == 0 {
        0
    } else {
        fmod(newton_acc(p, c, i, (j - 1) as nat) - p[j - 1] * c[i - j])
    }
}

/// The coefficient after `c` by Newton's identities:
/// `(i + 1) c[i] = -(p[i] + p[0] c[i-1] + ... + p[i-1] c[0])`.
pub open spec fn newton_next(p: Seq<int>, c: Seq<int>, i: int) -> int {
    fmod(fmod(newton_acc(p, c, i, i as nat) - p[i]) * inv(i + 1))
}

/// The first `n` coefficients, highest degree first and leading one left
/// out, of the monic polynomial whose roots have power sums `p`.
pub open spec fn newton_coeffs(p: Seq<int>, n: nat) -> Seq<int>
    decreases n,
{
    if n == 0 {
        Seq::empty()
    } else {
        let c = newton_coeffs(p, (n - 1) as nat);
        c.push(newton_next(p, c, n - 1))
    }
}

/// The monic polynomial with coefficients `c` (leading one left out),
/// evaluated at `x` by Horner's scheme in the field.
pub open spec fn horner(c: Seq<int>, x: int) -> int
    decreases c.len(),
{
    if c.len() == 0 {
        1
    } else {
        fmod(fmod(horner(c.drop_last(), x) * x) + c.last())
    }
}

/// The entries of `log` at which the polynomial `c` vanishes, in order.
pub open spec fn decoded(c: Seq<int>, log: Seq<u32>) -> Seq<u32> {
    log.filter(|x: u32| horner(c, fmod(x as int)) == 0)
}

pub proof fn lemma_newton_len(p: Seq<int>, n: nat)
    ensures
        newton_coeffs(p, n).len() == n,
    decreases n,
{
    if n > 0 {
        lemma_newton_len(p, (n - 1) as nat);
    }
}

/// `x^(k+1) mod p` from `x^k mod p`.
proof fn lemma_pow_step(x: int, k: nat, y: int)
    requires
        y == fmod(pow(x, k)),
    ensures
        fmod(y * x) == fmod(pow(x, k + 1)),
{
    lemma_mul_mod_noop_left(pow(x, k), x, modulus());
    reveal(pow);
    assert(pow(x, k + 1) == x * pow(x, k));
    assert(x * pow(x, k) == pow(x, k) * x) by (nonlinear_arith);
}

/// `b` is the wire form of a quACK with count `count`, last value `last`
/// (zero when unknown) and power sums `sums`: `count` and `last` as
/// little-endian `u32`, then each power sum as a little-endian `u32`.
pub open spec fn psum_wire(b: Seq<u8>, count: u32, last: Option<u32>, sums: Seq<int>) -> bool {
    &&& b.len() == 8 + 4 * sums.len()
    &&& le32(b, 0) == count
    &&& le32(b, 4) == match last {
        Some(v) => v,
        None => 0,
    }
    &&& forall|i: int| 0 <= i < sums.len() ==> le32(b, 8 + 4 * i) == #[trigger] sums[i]
}

/// The power sums carried by the wire form `b`, reduced into the field.
pub open spec fn wire_sums(b: Seq<u8>) -> Seq<int> {
    Seq::new(((b.len() - 8) / 4) as nat, |i: int| fmod(le32(b, 8 + 4 * i)))
}

/// 32-bit power sum quACK.
#[derive(Clone, Debug, PartialEq, Eq)]
pub struct PowerSumQuackU32 {
    power_sums: Vec<u32>,
    last_value: Option<u32>,
    count: u32,
}

impl PowerSumQuackU32 {
    /// The power sums, `p_1` first.
    pub closed spec fn sums(&self) -> Seq<int> {
        ints(self.power_sums@)
    }

    /// The number of elements, modulo `2^32`.
    pub closed spec fn spec_count(&self) -> u32 {
        self.count
    }

    /// The last element inserted, if it is known.
    pub closed spec fn spec_last_value(&self) -> Option<u32> {
        self.last_value
    }

    /// Every power sum is a field element.
    pub closed spec fn wf(&self) -> bool {
        &&& canonical(self.sums())
    }

    /// Creates a quACK that can decode up to `threshold` elements.
    pub fn new(threshold: usize) -> (r: Self)
        ensures
            r.wf(),
            r.sums() == zeros(threshold as nat),
            r.spec_count() == 0,
            r.spec_last_value().is_none(),
    {
        let mut power_sums: Vec<u32> = Vec::new();
        let mut i: usize = 0;
        while i < threshold
            invariant
                i <= threshold,
                power_sums@.len() == i,
                forall|k: int| 0 <= k < i ==> power_sums@[k] == 0,
            decreases threshold - i,
        {
            power_sums.push(0);
            i = i + 1;
        }
        let r = Self { power_sums, last_value: None, count: 0 };
        assert(r.sums() =~= zeros(threshold as nat));
        r
    }

    /// The number of power sums kept.
    pub fn threshold(&self) -> (r: usize)
        ensures
            r == self.sums().len(),
    {
        self.power_sums.len()
    }

    /// The number of elements in the quACK, modulo `2^32`.
    pub fn count(&self) -> (r: u32)
        ensures
            r == self.spec_count(),
    {
        self.count
    }

    /// The last element inserted, unless it has been removed since or the
    /// quACK is a difference.
    pub fn last_value(&self) -> (r: Option<u32>)
        ensures
            r == self.spec_last_value(),
    {
        self.last_value
    }

    /// The power sums as field elements.
    pub fn power_sums(&self) -> (r: &Vec<u32>)
        ensures
            ints(r@) == self.sums(),
    {
        &self.power_sums
    }

    /// Inserts an element.
    pub fn insert(&mut self, value: u32)
        requires
            old(self).wf(),
        ensures
            final(self).wf(),
            final(self).sums() == inserted(old(self).sums(), fmod(value as int)),
            final(self).spec_count() == old(self).spec_count().wrapping_add(1),
            final(self).spec_last_value() == Some(value),
    {
        let x = value % LARGE_PRIME_U32;
        let ghost s0 = self.sums();
        let mut y = x;
        let size = self.power_sums.len();
        let mut i: usize = 0;
        proof {
            vstd::arithmetic::power::lemma_pow1(x as int);
            lemma_small_mod(x as nat, modulus() as nat);
        }
        while i < size
            invariant
                size == self.power_sums@.len(),
                self.count == old(self).count,
                self.last_value == old(self).last_value,
                s0.len() == size,
                canonical(s0),
                i <= size,
                x as int == fmod(value as int),
                y as int == fmod(pow(x as int, (i + 1) as nat)),
                forall|k: int| 0 <= k < i ==> #[trigger] self.sums()[k] == inserted(s0, x as int)[k],
                forall|k: int| i <= k < size ==> #[trigger] self.sums()[k] == s0[k],
            decreases size - i,
        {
            let v = add_and_mod(self.power_sums[i], y);
            proof {
                assert(self.sums()[i as int] == self.power_sums@[i as int] as int);
                assert(s0[i as int] == self.power_sums@[i as int] as int);
                lemma_add_mod_noop_right(s0[i as int], pow(x as int, (i + 1) as nat), modulus());
                lemma_pow_step(x as int, (i + 1) as nat, y as int);
            }
            let ghost before = self.sums();
            self.power_sums.set(i, v);
            assert(self.sums() =~= before.update(i as int, v as int));
            y = mul_and_mod(y, x);
            i = i + 1;
        }
        assert(self.sums() =~= inserted(s0, x as int));
        self.count = self.count.wrapping_add(1);
        self.last_value = Some(value);
    }

    /// Removes an element. Does not check that it had been inserted.
    pub fn remove(&mut self, value: u32)
        requires
            old(self).wf(),
        ensures
            final(self).wf(),
            final(self).sums() == removed(old(self).sums(), fmod(value as int)),
            final(self).spec_count() == old(self).spec_count().wrapping_sub(1),
            final(self).spec_last_value() == (if old(self).spec_last_value() == Some(value) {
                None
            } else {
                old(self).spec_last_value()
            }),
    {
        let x = value % LARGE_PRIME_U32;
        let ghost s0 = self.sums();
        let mut y = x;
        let size = self.power_sums.len();
        let mut i: usize = 0;
        proof {
            vstd::arithmetic::power::lemma_pow1(x as int);
            lemma_small_mod(x as nat, modulus() as nat);
        }
        while i < size
            invariant
                size == self.power_sums@.len(),
                self.count == old(self).count,
                self.last_value == old(self).last_value,
                s0.len() == size,
                canonical(s0),
                i <= size,
                x as int == fmod(value as int),
                y as int == fmod(pow(x as int, (i + 1) as nat)),
                forall|k: int| 0 <= k < i ==> #[trigger] self.sums()[k] == removed(s0, x as int)[k],
                forall|k: int| i <= k < size ==> #[trigger] self.sums()[k] == s0[k],
            decreases size - i,
        {
            let v = sub_and_mod(self.power_sums[i], y);
            proof {
                assert(self.sums()[i as int] == self.power_sums@[i as int] as int);
                assert(s0[i as int] == self.power_sums@[i as int] as int);
                lemma_sub_mod_noop_right(s0[i as int], pow(x as int, (i + 1) as nat), modulus());
                lemma_pow_step(x as int, (i + 1) as nat, y as int);
            }
            let ghost before = self.sums();
            self.power_sums.set(i, v);
            assert(self.sums() =~= before.update(i as int, v as int));
            y = mul_and_mod(y, x);
            i = i + 1;
        }
        assert(self.sums() =~= removed(s0, x as int));
        self.count = self.count.wrapping_sub(1);
        if let Some(last) = self.last_value {
            if last == value {
                self.last_value = None;
            }
        }
    }

    /// Subtracts a quACK of the same threshold from this one.
    pub fn sub_assign(&mut self, rhs: &Self)
        requires
            old(self).wf(),
            rhs.wf(),
            old(self).sums().len() == rhs.sums().len(),
        ensures
            final(self).wf(),
            final(self).sums() == subtracted(old(self).sums(), rhs.sums()),
            final(self).spec_count() == old(self).spec_count().wrapping_sub(rhs.spec_count()),
            final(self).spec_last_value().is_none(),
    {
        let ghost s0 = self.sums();
        let size = self.power_sums.len();
        let mut i: usize = 0;
        while i < size
            invariant
                size == self.power_sums@.len(),
                size == rhs.power_sums@.len(),
                self.count == old(self).count,
                s0.len() == size,
                i <= size,
                forall|k: int| 0 <= k < i ==> #[trigger] self.sums()[k] == subtracted(s0, rhs.sums())[k],
                forall|k: int| i <= k < size ==> #[trigger] self.sums()[k] == s0[k],
            decreases size - i,
        {
            let v = sub_and_mod(self.power_sums[i], rhs.power_sums[i]);
            proof {
                assert(self.sums()[i as int] == self.power_sums@[i as int] as int);
                assert(rhs.sums()[i as int] == rhs.power_sums@[i as int] as int);
                assert(subtracted(s0, rhs.sums())[i as int] == v as int);
            }
            let ghost before = self.sums();
            self.power_sums.set(i, v);
            assert(self.sums() =~= before.update(i as int, v as int));
            i = i + 1;
        }
        assert(self.sums() =~= subtracted(s0, rhs.sums()));
        self.count = self.count.wrapping_sub(rhs.count);
        self.last_value = None;
    }

    /// The difference of two quACKs, with as many power sums as the smaller.
    pub fn sub(&self, rhs: &Self) -> (r: Self)
        requires
            self.wf(),
            rhs.wf(),
        ensures
            r.wf(),
            r.sums() == subtracted(self.sums(), rhs.sums()),
            r.spec_count() == self.spec_count().wrapping_sub(rhs.spec_count()),
            r.spec_last_value().is_none(),
    {
        let n = if self.power_sums.len() <= rhs.power_sums.len() {
            self.power_sums.len()
        } else {
            rhs.power_sums.len()
        };
        let mut power_sums: Vec<u32> = Vec::new();
        let mut i: usize = 0;
        while i < n
            invariant
                n <= self.power_sums@.len(),
                n <= rhs.power_sums@.len(),
                n == subtracted(self.sums(), rhs.sums()).len(),
                i <= n,
                power_sums@.len() == i,
                forall|k: int| 0 <= k < i ==> #[trigger] ints(power_sums@)[k] == subtracted(self.sums(), rhs.sums())[k],
            decreases n - i,
        {
            let v = sub_and_mod(self.power_sums[i], rhs.power_sums[i]);
            proof {
                assert(self.sums()[i as int] == self.power_sums@[i as int] as int);
                assert(rhs.sums()[i as int] == rhs.power_sums@[i as int] as int);
                assert(subtracted(self.sums(), rhs.sums())[i as int] == v as int);
            }
            let ghost before = power_sums@;
            power_sums.push(v);
            assert(ints(power_sums@) =~= ints(before).push(v as int));
            i = i + 1;
        }
        let r = Self { power_sums, last_value: None, count: self.count.wrapping_sub(rhs.count) };
        assert(r.sums() =~= subtracted(self.sums(), rhs.sums()));
        r
    }

    /// Writes the quACK's wire form into `buf`; returns its length. An
    /// unknown last value is written as zero.
    pub fn serialize(&self, buf: &mut [u8]) -> (r: usize)
        requires
            self.wf(),
            8 + 4 * self.sums().len() <= old(buf)@.len(),
        ensures
            r == 8 + 4 * self.sums().len(),
            final(buf)@.len() == old(buf)@.len(),
            psum_wire(final(buf)@.subrange(0, r as int), self.spec_count(), self.spec_last_value(), self.sums()),
    {
        let r = self.serialize_with_hint(buf, self.power_sums.len());
        assert(self.sums().take(self.sums().len() as int) =~= self.sums());
        r
    }

    /// Like [`Self::serialize`], but writes only the first
    /// `min(threshold, num_missing)` power sums: enough to decode that many
    /// missing elements.
    pub fn serialize_with_hint(&self, buf: &mut [u8], num_missing: usize) -> (r: usize)
        requires
            self.wf(),
            8 + 4 * self.sums().len() <= old(buf)@.len(),
        ensures
            r == 8 + 4 * (if num_missing < self.sums().len() { num_missing as int } else { self.sums().len() as int }),
            final(buf)@.len() == old(buf)@.len(),
            psum_wire(
                final(buf)@.subrange(0, r as int),
                self.spec_count(),
                self.spec_last_value(),
                self.sums().take((r - 8) / 4),
            ),
    {
        let n = if num_missing < self.power_sums.len() { num_missing } else { self.power_sums.len() };
        let blen = buf.len();
        write_u32_le(buf, 0, self.count);
        let last = match self.last_value {
            Some(v) => v,
            None => 0,
        };
        write_u32_le(buf, 4, last);
        let mut i: usize = 0;
        while i < n
            invariant
                n <= self.power_sums@.len(),
                8 + 4 * self.power_sums@.len() <= buf@.len(),
                buf@.len() == old(buf)@.len(),
                blen == buf@.len(),
                i <= n,
                le32(buf@, 0) == self.count,
                le32(buf@, 4) == last,
                forall|k: int| 0 <= k < i ==> le32(buf@, 8 + 4 * k) == #[trigger] self.sums()[k],
            decreases n - i,
        {
            let ghost before = buf@;
            write_u32_le(buf, 8 + 4 * i, self.power_sums[i]);
            proof {
                assert(self.sums()[i as int] == self.power_sums@[i as int] as int);
                assert forall|k: int| 0 <= k < i implies le32(buf@, 8 + 4 * k) == #[trigger] self.sums()[k] by {
                    assert(le32(before, 8 + 4 * k) == self.sums()[k]);
                }
            }
            i = i + 1;
        }
        let r = 8 + 4 * n;
        proof {
            let b = buf@.subrange(0, r as int);
            assert(le32(b, 0) == le32(buf@, 0));
            assert(le32(b, 4) == le32(buf@, 4));
            assert forall|k: int| 0 <= k < n implies le32(b, 8 + 4 * k) == #[trigger] self.sums().take(n as int)[k] by {
                assert(le32(b, 8 + 4 * k) == le32(buf@, 8 + 4 * k));
            }
            assert((r - 8) / 4 == n);
        }
        r
    }

    /// Reads a quACK from its wire form; the power sums are as many as the
    /// buffer holds.
    pub fn deserialize(buf: &[u8]) -> (r: Self)
        requires
            8 <= buf@.len(),
        ensures
            r.wf(),
            r.spec_count() == le32(buf@, 0),
            r.spec_last_value() == Some(le32(buf@, 4) as u32),
            r.sums() == wire_sums(buf@),
    {
        let blen = buf.len();
        let n = (blen - 8) / 4;
        let mut power_sums: Vec<u32> = Vec::new();
        let mut i: usize = 0;
        while i < n
            invariant
                n == (buf@.len() - 8) / 4,
                8 <= buf@.len(),
                blen == buf@.len(),
                i <= n,
                power_sums@.len() == i,
                forall|k: int| 0 <= k < i ==> #[trigger] ints(power_sums@)[k] == wire_sums(buf@)[k],
            decreases n - i,
        {
            let v = read_u32_le(buf, 8 + 4 * i) % LARGE_PRIME_U32;
            let ghost before = power_sums@;
            power_sums.push(v);
            assert(ints(power_sums@) =~= ints(before).push(v as int));
            i = i + 1;
        }
        let count = read_u32_le(buf, 0);
        let last = read_u32_le(buf, 4);
        let r = Self { power_sums, last_value: Some(last), count };
        assert(r.sums() =~= wire_sums(buf@));
        r
    }

    /// Replaces this quACK with the one `buf` holds.
    pub fn deserialize_prealloc(&mut self, buf: &[u8])
        requires
            8 <= buf@.len(),
        ensures
            final(self).wf(),
            final(self).spec_count() == le32(buf@, 0),
            final(self).spec_last_value() == Some(le32(buf@, 4) as u32),
            final(self).sums() == wire_sums(buf@),
    {
        *self = Self::deserialize(buf);
    }

    /// Fills `coeffs` with the coefficients of the polynomial whose roots are
    /// the elements of the quACK, computed from the power sums by Newton's
    /// identities. The vector's length is the degree.
    pub fn to_coeffs_preallocated(&self, coeffs: &mut Vec<u32>)
        requires
            self.wf(),
            old(coeffs)@.len() <= self.sums().len(),
            old(coeffs)@.len() <= u32::MAX,
        ensures
            final(coeffs)@.len() == old(coeffs)@.len(),
            ints(final(coeffs)@) == newton_coeffs(self.sums(), old(coeffs)@.len()),
    {
        let n = coeffs.len();
        let ghost p = self.sums();
        let mut i: usize = 0;
        while i < n
            invariant
                n == coeffs@.len(),
                n <= p.len(),
                n <= u32::MAX,
                p == self.sums(),
                canonical(p),
                i <= n,
                ints(coeffs@).subrange(0, i as int) == newton_coeffs(p, i as nat),
                canonical(ints(coeffs@).subrange(0, i as int)),
            decreases n - i,
        {
            let ghost c = newton_coeffs(p, i as nat);
            proof {
                lemma_newton_len(p, i as nat);
            }
            let mut acc: u32 = 0;
            let mut j: usize = 0;
            while j < i
                invariant
                    n == coeffs@.len(),
                    n <= p.len(),
                    n <= u32::MAX,
                    p == self.sums(),
                    i < n,
                    j <= i,
                    c == newton_coeffs(p, i as nat),
                    c.len() == i,
                    ints(coeffs@).subrange(0, i as int) == c,
                    acc as int == newton_acc(p, c, i as int, j as nat),
                decreases i - j,
            {
                let term = mul_and_mod(self.power_sums[j], coeffs[i - j - 1]);
                proof {
                    assert(ints(coeffs@).subrange(0, i as int)[i - j - 1] == coeffs@[i - j - 1] as int);
                    lemma_sub_mod_noop_right(acc as int, p[j as int] * c[i - (j + 1)], modulus());
                }
                acc = sub_and_mod(acc, term);
                j = j + 1;
            }
            acc = sub_and_mod(acc, self.power_sums[i]);
            let k = (i + 1) as u32;
            let inv_k = match inverse(k) {
                Some(u) => {
                    proof {
                        lemma_inverse_unique(k as int, u as int);
                    }
                    u
                },
                None => 0,
            };
            let v = mul_and_mod(acc, inv_k);
            proof {
                lemma_newton_len(p, (i + 1) as nat);
                assert(newton_coeffs(p, (i + 1) as nat) == c.push(newton_next(p, c, i as int)));
            }
            coeffs.set(i, v);
            i = i + 1;
            proof {
                assert(ints(coeffs@).subrange(0, i as int) =~= c.push(v as int));
            }
        }
        assert(ints(coeffs@) =~= ints(coeffs@).subrange(0, n as int));
    }

    /// The coefficients of the polynomial whose roots are the elements of
    /// the quACK, one per element.
    pub fn to_coeffs(&self) -> (r: Vec<u32>)
        requires
            self.wf(),
            self.spec_count() <= self.sums().len(),
        ensures
            ints(r@) == newton_coeffs(self.sums(), self.spec_count() as nat),
    {
        let mut coeffs: Vec<u32> = Vec::new();
        let mut i: u32 = 0;
        while i < self.count
            invariant
                i <= self.count,
                coeffs@.len() == i,
            decreases self.count - i,
        {
            coeffs.push(0);
            i = i + 1;
        }
        self.to_coeffs_preallocated(&mut coeffs);
        coeffs
    }

    /// The entries of `log` that are roots of the quACK's polynomial, in
    /// the order and with the multiplicity they have in the log.
    pub fn decode_with_log(&self, log: &[u32]) -> (r: Vec<u32>)
        requires
            self.wf(),
            self.spec_count() <= self.sums().len(),
        ensures
            self.spec_count() == 0 ==> r@.len() == 0,
            self.spec_count() != 0 ==> r@ == decoded(newton_coeffs(self.sums(), self.spec_count() as nat), log@),
    {
        if self.count == 0 {
            return Vec::new();
        }
        let coeffs = self.to_coeffs();
        let ghost c = ints(coeffs@);
        let mut out: Vec<u32> = Vec::new();
        let mut i: usize = 0;
        while i < log.len()
            invariant
                i <= log@.len(),
                c == ints(coeffs@),
                out@ == decoded(c, log@.take(i as int)),
            decreases log@.len() - i,
        {
            let x = log[i];
            let e = eval(&coeffs, x);
            proof {
                assert(log@.take(i + 1) =~= log@.take(i as int).push(x));
                log@.take(i as int).lemma_filter_push(x, |x: u32| horner(c, fmod(x as int)) == 0);
            }
            if e == 0 {
                out.push(x);
            }
            i = i + 1;
        }
        assert(log@.take(log@.len() as int) =~= log@);
        out
    }
}

/// Reading back the wire form of a quACK gives the quACK again: the same
/// count and power sums, and the last value, or zero where it was unknown.
/// A hint form that keeps `k` power sums gives back the first `k`.
pub proof fn lemma_wire_round_trip(q: PowerSumQuackU32, b: Seq<u8>, k: nat)
    requires
        q.wf(),
        k <= q.sums().len(),
        psum_wire(b, q.spec_count(), q.spec_last_value(), q.sums().take(k as int)),
    ensures
        le32(b, 0) == q.spec_count(),
        le32(b, 4) == match q.spec_last_value() {
            Some(v) => v,
            None => 0u32,
        },
        wire_sums(b) == q.sums().take(k as int),
{
    let s = q.sums().take(k as int);
    assert forall|i: int| 0 <= i < k implies #[trigger] wire_sums(b)[i] == s[i] by {
        assert(le32(b, 8 + 4 * i) == s[i]);
        lemma_small_mod(s[i] as nat, modulus() as nat);
    }
    assert(wire_sums(b) =~= s);
}

/// Adding `x` to a multiset and subtracting the power sums of the multiset
/// leaves the power sums of `{x}` alone.
pub proof fn lemma_insert_then_subtract(s: Seq<int>, x: int)
    requires
        canonical(s),
    ensures
        subtracted(inserted(s, x), s) == inserted(zeros(s.len()), x),
{
    let l = subtracted(inserted(s, x), s);
    let r = inserted(zeros(s.len()), x);
    assert forall|i: int| 0 <= i < s.len() implies #[trigger] l[i] == r[i] by {
        let t = pow(x, (i + 1) as nat);
        vstd::arithmetic::div_mod::lemma_sub_mod_noop(s[i] + t, s[i], modulus());
        lemma_small_mod(s[i] as nat, modulus() as nat);
        lemma_mod_twice(s[i] + t, modulus());
        assert(s[i] + t - s[i] == 0 + t);
        vstd::arithmetic::div_mod::lemma_sub_mod_noop(fmod(s[i] + t), s[i], modulus());
    }
    assert(l =~= r);
}

/// Inserting two elements in either order gives the same power sums.
pub proof fn lemma_insert_commutes(s: Seq<int>, x: int, y: int)
    ensures
        inserted(inserted(s, x), y) == inserted(inserted(s, y), x),
{
    let a = inserted(inserted(s, x), y);
    let b = inserted(inserted(s, y), x);
    assert forall|i: int| 0 <= i < s.len() implies #[trigger] a[i] == b[i] by {
        let px = pow(x, (i + 1) as nat);
        let py = pow(y, (i + 1) as nat);
        lemma_add_mod_noop_right(py, s[i] + px, modulus());
        lemma_add_mod_noop_right(px, s[i] + py, modulus());
        vstd::arithmetic::div_mod::lemma_add_mod_noop(s[i] + px, py, modulus());
        vstd::arithmetic::div_mod::lemma_add_mod_noop(s[i] + py, px, modulus());
        lemma_mod_twice(s[i] + px, modulus());
        lemma_mod_twice(s[i] + py, modulus());
        lemma_mod_twice(py, modulus());
        lemma_mod_twice(px, modulus());
        assert(s[i] + px + py == s[i] + py + px);
    }
    assert(a =~= b);
}

/// The coefficients of the monic polynomial whose roots have the power sums
/// `p`, as many as `p` holds, by Newton's identities.
pub fn newton_coefficients(p: &Vec<u32>) -> (r: Vec<u32>)
    requires
        canonical(ints(p@)),
        p@.len() <= u32::MAX,
    ensures
        ints(r@) == newton_coeffs(ints(p@), p@.len()),
{
    let mut power_sums: Vec<u32> = Vec::new();
    let mut coeffs: Vec<u32> = Vec::new();
    let mut i: usize = 0;
    while i < p.len()
        invariant
            i <= p@.len(),
            power_sums@ == p@.take(i as int),
            coeffs@.len() == i,
        decreases p@.len() - i,
    {
        power_sums.push(p[i]);
        coeffs.push(0);
        i = i + 1;
        assert(power_sums@ =~= p@.take(i as int));
    }
    assert(power_sums@ =~= p@);
    let q = PowerSumQuackU32 { power_sums, last_value: None, count: 0 };
    q.to_coeffs_preallocated(&mut coeffs);
    coeffs
}

/// Evaluates the monic polynomial with coefficients `coeffs` (leading one
/// left out) at `x` in the field.
pub fn eval(coeffs: &Vec<u32>, x: u32) -> (r: u32)
    ensures
        r as int == horner(ints(coeffs@), fmod(x as int)),
{
    let xm = x % LARGE_PRIME_U32;
    let mut r: u32 = 1;
    let mut i: usize = 0;
    proof {
        lemma_small_mod(1, modulus() as nat);
        assert(ints(coeffs@).take(0).len() == 0);
    }
    while i < coeffs.len()
        invariant
            i <= coeffs@.len(),
            xm as int == fmod(x as int),
            r as int == horner(ints(coeffs@).take(i as int), xm as int),
        decreases coeffs@.len() - i,
    {
        proof {
            assert(ints(coeffs@).take(i + 1).drop_last() =~= ints(coeffs@).take(i as int));
        }
        r = add_and_mod(mul_and_mod(r, xm), coeffs[i]);
        i = i + 1;
    }
    assert(ints(coeffs@).take(coeffs@.len() as int) =~= ints(coeffs@));
    r
}

} // verus!
