//! The 16-bit power-sum quACK: power sums modulo the largest prime below
//! `2^16`.
use vstd::prelude::*;
use vstd::arithmetic::power::pow;
use vstd::arithmetic::div_mod::{
    lemma_add_mod_noop_right, lemma_mul_mod_noop_left, lemma_sub_mod_noop_right,
    lemma_small_mod,
};
use crate::field16::{
    add_and_mod, fmod, inv, inverse, lemma_inverse_unique, modulus, mul_and_mod, sub_and_mod,
    PRIME_U16,
};

verus! {

/// A sequence of `u32` as mathematical integers.
pub open spec fn ints(v: Seq<u32>) -> Seq<int> {
    v.map_values(|x: u32| x as int)
}

/// Every entry is a canonical field element.
pub open spec fn canonical(s: Seq<int>) -> bool {
    forall|i: int| 0 <= i < s.len() ==> 0 <= #[trigger] s[i] < modulus()
}

/// The power sums `s` after `x` is added to the multiset.
pub open spec fn inserted(s: Seq<int>, x: int) -> Seq<int> {
    Seq::new(s.len(), |i: int| fmod(s[i] + pow(x, (i + 1) as nat)))
}

/// The power sums `s` after `x` is taken out of the multiset.
pub open spec fn removed(s: Seq<int>, x: int) -> Seq<int> {
    Seq::new(s.len(), |i: int| fmod(s[i] - pow(x, (i + 1) as nat)))
}

/// The entrywise difference of two vectors of power sums, as long as the
/// shorter one.
pub open spec fn subtracted(a: Seq<int>, b: Seq<int>) -> Seq<int> {
    Seq::new(
        if a.len() <= b.len() { a.len() } else { b.len() },
        |i: int| fmod(a[i] - b[i]),
    )
}

/// `n` zero power sums.
pub open spec fn zeros(n: nat) -> Seq<int> {
    Seq::new(n, |i: int| 0)
}

/// The running sum `-(p[0] c[i-1] + ... + p[j-1] c[i-j])` of Newton's
/// identities.
pub open spec fn newton_acc(p: Seq<int>, c: Seq<int>, i: int, j: nat) -> int
    decreases j,
{
    if j == 0 {
        0
    } else {
        fmod(newton_acc(p, c, i, (j - 1) as nat) - p[j - 1] * c[i - j])
    }
}

/// The coefficient after `c` by Newton's identities:
/// `(i + 1) c[i] = -(p[i] + p[0] c[i-1] + ... + p[i-1] c[0])`.
pub open spec fn newton_next(p: Seq<int>, c: Seq<int>, i: int) -> int {
    fmod(fmod(newton_acc(p, c, i, i as nat) - p[i]) * inv(i + 1))
}

/// The first `n` coefficients, highest degree first and leading one left
/// out, of the monic polynomial whose roots have power sums `p`.
pub open spec fn newton_coeffs(p: Seq<int>, n: nat) -> Seq<int>
    decreases n,
{
    if n == 0 {
        Seq::empty()
    } else {
        let c = newton_coeffs(p, (n - 1) as nat);
        c.push(newton_next(p, c, n - 1))
    }
}

/// The monic polynomial with coefficients `c` (leading one left out),
/// evaluated at `x` by Horner's scheme in the field.
pub open spec fn horner(c: Seq<int>, x: int) -> int
    decreases c.len(),
{
    if c.len() == 0 {
        1
    } else {
        fmod(fmod(horner(c.drop_last(), x) * x) + c.last())
    }
}

/// The entries of `log` at which the polynomial `c` vanishes, in order.
pub open spec fn decoded(c: Seq<int>, log: Seq<u16>) -> Seq<u16> {
    log.filter(|x: u16| horner(c, fmod(x as int)) == 0)
}

pub proof fn lemma_newton_len(p: Seq<int>, n: nat)
    ensures
        newton_coeffs(p, n).len() == n,
    decreases n,
{
    if n > 0 {
        lemma_newton_len(p, (n - 1) as nat);
    }
}

/// `x^(k+1) mod p` from `x^k mod p`.
proof fn lemma_pow_step(x: int, k: nat, y: int)
    requires
        y == fmod(pow(x, k)),
    ensures
        fmod(y * x) == fmod(pow(x, k + 1)),
{
    lemma_mul_mod_noop_left(pow(x, k), x, modulus());
    reveal(pow);
    assert(pow(x, k + 1) == x * pow(x, k));
    assert(x * pow(x, k) == pow(x, k) * x) by (nonlinear_arith);
}

/// 16-bit power sum quACK.
#[derive(Clone, Debug, PartialEq, Eq)]
pub struct PowerSumQuackU16 {
    power_sums: Vec<u32>,
    last_value: Option<u32>,
    count: u32,
}

impl PowerSumQuackU16 {
    /// The power sums, `p_1` first.
    pub closed spec fn sums(&self) -> Seq<int> {
        ints(self.power_sums@)
    }

    /// The number of elements, modulo `2^32`.
    pub closed spec fn spec_count(&self) -> u32 {
        self.count
    }

    /// The last element inserted, if it is known.
    pub closed spec fn spec_last_value(&self) -> Option<u32> {
        self.last_value
    }

    /// Every power sum is a field element.
    pub closed spec fn wf(&self) -> bool {
        &&& canonical(self.sums())
        &&& (self.last_value matches Some(v) ==> v <= u16::MAX)
    }

    /// Creates a quACK that can decode up to `threshold` elements.
    pub fn new(threshold: usize) -> (r: Self)
        ensures
            r.wf(),
            r.sums() == zeros(threshold as nat),
            r.spec_count() == 0,
            r.spec_last_value().is_none(),
    {
        let mut power_sums: Vec<u32> = Vec::new();
        let mut i: usize = 0;
        while i < threshold
            invariant
                i <= threshold,
                power_sums@.len() == i,
                forall|k: int| 0 <= k < i ==> power_sums@[k] == 0,
            decreases threshold - i,
        {
            power_sums.push(0);
            i = i + 1;
        }
        let r = Self { power_sums, last_value: None, count: 0 };
        assert(r.sums() =~= zeros(threshold as nat));
        r
    }

    /// The number of power sums kept.
    pub fn threshold(&self) -> (r: usize)
        ensures
            r == self.sums().len(),
    {
        self.power_sums.len()
    }

    /// The number of elements in the quACK, modulo `2^32`.
    pub fn count(&self) -> (r: u32)
        ensures
            r == self.spec_count(),
    {
        self.count
    }

    /// The last element inserted, unless it has been removed since or the
    /// quACK is a difference.
    pub fn last_value(&self) -> (r: Option<u16>)
        requires
            self.wf(),
        ensures
            r == match self.spec_last_value() {
                Some(v) => Some(v as u16),
                None => None,
            },
    {
        match self.last_value {
            Some(v) => Some(v as u16),
            None => None,
        }
    }

    /// The power sums as field elements.
    pub fn power_sums(&self) -> (r: &Vec<u32>)
        ensures
            ints(r@) == self.sums(),
    {
        &self.power_sums
    }

    /// Inserts an element.
    pub fn insert(&mut self, value: u16)
        requires
            old(self).wf(),
        ensures
            final(self).wf(),
            final(self).sums() == inserted(old(self).sums(), fmod(value as int)),
            final(self).spec_count() == old(self).spec_count().wrapping_add(1),
            final(self).spec_last_value() == Some(value as u32),
    {
        let value = value as u32;
        let x = value % PRIME_U16;
        let ghost s0 = self.sums();
        let mut y = x;
        let size = self.power_sums.len();
        let mut i: usize = 0;
        proof {
            vstd::arithmetic::power::lemma_pow1(x as int);
            lemma_small_mod(x as nat, modulus() as nat);
        }
        while i < size
            invariant
                size == self.power_sums@.len(),
                self.count == old(self).count,
                self.last_value == old(self).last_value,
                s0.len() == size,
                canonical(s0),
                i <= size,
                x as int == fmod(value as int),
                y as int == fmod(pow(x as int, (i + 1) as nat)),
                forall|k: int| 0 <= k < i ==> #[trigger] self.sums()[k] == inserted(s0, x as int)[k],
                forall|k: int| i <= k < size ==> #[trigger] self.sums()[k] == s0[k],
            decreases size - i,
        {
            let v = add_and_mod(self.power_sums[i], y);
            proof {
                assert(self.sums()[i as int] == self.power_sums@[i as int] as int);
                assert(s0[i as int] == self.power_sums@[i as int] as int);
                lemma_add_mod_noop_right(s0[i as int], pow(x as int, (i + 1) as nat), modulus());
                lemma_pow_step(x as int, (i + 1) as nat, y as int);
            }
            let ghost before = self.sums();
            self.power_sums.set(i, v);
            assert(self.sums() =~= before.update(i as int, v as int));
            y = mul_and_mod(y, x);
            i = i + 1;
        }
        assert(self.sums() =~= inserted(s0, x as int));
        self.count = self.count.wrapping_add(1);
        self.last_value = Some(value);
    }

    /// Removes an element. Does not check that it had been inserted.
    pub fn remove(&mut self, value: u16)
        requires
            old(self).wf(),
        ensures
            final(self).wf(),
            final(self).sums() == removed(old(self).sums(), fmod(value as int)),
            final(self).spec_count() == old(self).spec_count().wrapping_sub(1),
            final(self).spec_last_value() == (if old(self).spec_last_value() == Some(value as u32) {
                None
            } else {
                old(self).spec_last_value()
            }),
    {
        let value = value as u32;
        let x = value % PRIME_U16;
        let ghost s0 = self.sums();
        let mut y = x;
        let size = self.power_sums.len();
        let mut i: usize = 0;
        proof {
            vstd::arithmetic::power::lemma_pow1(x as int);
            lemma_small_mod(x as nat, modulus() as nat);
        }
        while i < size
            invariant
                size == self.power_sums@.len(),
                self.count == old(self).count,
                self.last_value == old(self).last_value,
                s0.len() == size,
                canonical(s0),
                i <= size,
                x as int == fmod(value as int),
                y as int == fmod(pow(x as int, (i + 1) as nat)),
                forall|k: int| 0 <= k < i ==> #[trigger] self.sums()[k] == removed(s0, x as int)[k],
                forall|k: int| i <= k < size ==> #[trigger] self.sums()[k] == s0[k],
            decreases size - i,
        {
            let v = sub_and_mod(self.power_sums[i], y);
            proof {
                assert(self.sums()[i as int] == self.power_sums@[i as int] as int);
                assert(s0[i as int] == self.power_sums@[i as int] as int);
                lemma_sub_mod_noop_right(s0[i as int], pow(x as int, (i + 1) as nat), modulus());
                lemma_pow_step(x as int, (i + 1) as nat, y as int);
            }
            let ghost before = self.sums();
            self.power_sums.set(i, v);
            assert(self.sums() =~= before.update(i as int, v as int));
            y = mul_and_mod(y, x);
            i = i + 1;
        }
        assert(self.sums() =~= removed(s0, x as int));
        self.count = self.count.wrapping_sub(1);
        if let Some(last) = self.last_value {
            if last == value {
                self.last_value = None;
            }
        }
    }

    /// Subtracts a quACK of the same threshold from this one.
    pub fn sub_assign(&mut self, rhs: &Self)
        requires
            old(self).wf(),
            rhs.wf(),
            old(self).sums().len() == rhs.sums().len(),
        ensures
            final(self).wf(),
            final(self).sums() == subtracted(old(self).sums(), rhs.sums()),
            final(self).spec_count() == old(self).spec_count().wrapping_sub(rhs.spec_count()),
            final(self).spec_last_value().is_none(),
    {
        let ghost s0 = self.sums();
        let size = self.power_sums.len();
        let mut i: usize = 0;
        while i < size
            invariant
                size == self.power_sums@.len(),
                size == rhs.power_sums@.len(),
                self.count == old(self).count,
                s0.len() == size,
                i <= size,
                forall|k: int| 0 <= k < i ==> #[trigger] self.sums()[k] == subtracted(s0, rhs.sums())[k],
                forall|k: int| i <= k < size ==> #[trigger] self.sums()[k] == s0[k],
            decreases size - i,
        {
            let v = sub_and_mod(self.power_sums[i], rhs.power_sums[i]);
            proof {
                assert(self.sums()[i as int] == self.power_sums@[i as int] as int);
                assert(rhs.sums()[i as int] == rhs.power_sums@[i as int] as int);
                assert(subtracted(s0, rhs.sums())[i as int] == v as int);
            }
            let ghost before = self.sums();
            self.power_sums.set(i, v);
            assert(self.sums() =~= before.update(i as int, v as int));
            i = i + 1;
        }
        assert(self.sums() =~= subtracted(s0, rhs.sums()));
        self.count = self.count.wrapping_sub(rhs.count);
        self.last_value = None;
    }

    /// The difference of two quACKs, with as many power sums as the smaller.
    pub fn sub(&self, rhs: &Self) -> (r: Self)
        requires
            self.wf(),
            rhs.wf(),
        ensures
            r.wf(),
            r.sums() == subtracted(self.sums(), rhs.sums()),
            r.spec_count() == self.spec_count().wrapping_sub(rhs.spec_count()),
            r.spec_last_value().is_none(),
    {
        let n = if self.power_sums.len() <= rhs.power_sums.len() {
            self.power_sums.len()
        } else {
            rhs.power_sums.len()
        };
        let mut power_sums: Vec<u32> = Vec::new();
        let mut i: usize = 0;
        while i < n
            invariant
                n <= self.power_sums@.len(),
                n <= rhs.power_sums@.len(),
                n == subtracted(self.sums(), rhs.sums()).len(),
                i <= n,
                power_sums@.len() == i,
                forall|k: int| 0 <= k < i ==> #[trigger] ints(power_sums@)[k] == subtracted(self.sums(), rhs.sums())[k],
            decreases n - i,
        {
            let v = sub_and_mod(self.power_sums[i], rhs.power_sums[i]);
            proof {
                assert(self.sums()[i as int] == self.power_sums@[i as int] as int);
                assert(rhs.sums()[i as int] == rhs.power_sums@[i as int] as int);
                assert(subtracted(self.sums(), rhs.sums())[i as int] == v as int);
            }
            let ghost before = power_sums@;
            power_sums.push(v);
            assert(ints(power_sums@) =~= ints(before).push(v as int));
            i = i + 1;
        }
        let r = Self { power_sums, last_value: None, count: self.count.wrapping_sub(rhs.count) };
        assert(r.sums() =~= subtracted(self.sums(), rhs.sums()));
        r
    }

    /// Fills `coeffs` with the coefficients of the polynomial whose roots are
    /// the elements of the quACK, computed from the power sums by Newton's
    /// identities. The vector's length is the degree.
    fn fill_coeffs(&self, coeffs: &mut Vec<u32>)
        requires
            self.wf(),
            old(coeffs)@.len() <= self.sums().len(),
            old(coeffs)@.len() <= u32::MAX,
        ensures
            final(coeffs)@.len() == old(coeffs)@.len(),
            canonical(ints(final(coeffs)@)),
            ints(final(coeffs)@) == newton_coeffs(self.sums(), old(coeffs)@.len()),
    {
        let n = coeffs.len();
        let ghost p = self.sums();
        let mut i: usize = 0;
        while i < n
            invariant
                n == coeffs@.len(),
                n <= p.len(),
                n <= u32::MAX,
                p == self.sums(),
                canonical(p),
                i <= n,
                ints(coeffs@).subrange(0, i as int) == newton_coeffs(p, i as nat),
                canonical(ints(coeffs@).subrange(0, i as int)),
            decreases n - i,
        {
            let ghost c = newton_coeffs(p, i as nat);
            proof {
                lemma_newton_len(p, i as nat);
            }
            let mut acc: u32 = 0;
            let mut j: usize = 0;
            while j < i
                invariant
                    n == coeffs@.len(),
                    n <= p.len(),
                    n <= u32::MAX,
                    p == self.sums(),
                    i < n,
                    j <= i,
                    c == newton_coeffs(p, i as nat),
                    c.len() == i,
                    ints(coeffs@).subrange(0, i as int) == c,
                    acc as int == newton_acc(p, c, i as int, j as nat),
                decreases i - j,
            {
                let term = mul_and_mod(self.power_sums[j], coeffs[i - j - 1]);
                proof {
                    assert(ints(coeffs@).subrange(0, i as int)[i - j - 1] == coeffs@[i - j - 1] as int);
                    lemma_sub_mod_noop_right(acc as int, p[j as int] * c[i - (j + 1)], modulus());
                }
                acc = sub_and_mod(acc, term);
                j = j + 1;
            }
            acc = sub_and_mod(acc, self.power_sums[i]);
            let k = (i + 1) as u32;
            let inv_k = match inverse(k) {
                Some(u) => {
                    proof {
                        lemma_inverse_unique(k as int, u as int);
                    }
                    u
                },
                None => 0,
            };
            let v = mul_and_mod(acc, inv_k);
            proof {
                lemma_newton_len(p, (i + 1) as nat);
                assert(newton_coeffs(p, (i + 1) as nat) == c.push(newton_next(p, c, i as int)));
            }
            coeffs.set(i, v);
            i = i + 1;
            proof {
                assert(ints(coeffs@).subrange(0, i as int) =~= c.push(v as int));
            }
        }
        assert(ints(coeffs@) =~= ints(coeffs@).subrange(0, n as int));
    }

    /// The coefficients of the polynomial whose roots are the elements of
    /// the quACK, one per element.
    fn coeffs_wide(&self) -> (r: Vec<u32>)
        requires
            self.wf(),
            self.spec_count() <= self.sums().len(),
        ensures
            canonical(ints(r@)),
            ints(r@) == newton_coeffs(self.sums(), self.spec_count() as nat),
    {
        let mut coeffs: Vec<u32> = Vec::new();
        let mut i: u32 = 0;
        while i < self.count
            invariant
                i <= self.count,
                coeffs@.len() == i,
            decreases self.count - i,
        {
            coeffs.push(0);
            i = i + 1;
        }
        self.fill_coeffs(&mut coeffs);
        coeffs
    }

    /// The coefficients of the polynomial whose roots are the elements of
    /// the quACK, one per element.
    pub fn to_coeffs(&self) -> (r: Vec<u16>)
        requires
            self.wf(),
            self.spec_count() <= self.sums().len(),
        ensures
            ints16(r@) == newton_coeffs(self.sums(), self.spec_count() as nat),
    {
        let wide = self.coeffs_wide();
        narrow(&wide)
    }

    /// Fills `coeffs` with the coefficients of the polynomial whose roots are
    /// the elements of the quACK; the vector's length is the degree.
    pub fn to_coeffs_preallocated(&self, coeffs: &mut Vec<u16>)
        requires
            self.wf(),
            old(coeffs)@.len() <= self.sums().len(),
            old(coeffs)@.len() <= u32::MAX,
        ensures
            final(coeffs)@.len() == old(coeffs)@.len(),
            ints16(final(coeffs)@) == newton_coeffs(self.sums(), old(coeffs)@.len()),
    {
        let mut wide: Vec<u32> = Vec::new();
        let mut i: usize = 0;
        while i < coeffs.len()
            invariant
                i <= coeffs@.len(),
                wide@.len() == i,
            decreases coeffs@.len() - i,
        {
            wide.push(0);
            i = i + 1;
        }
        self.fill_coeffs(&mut wide);
        *coeffs = narrow(&wide);
    }

    /// The entries of `log` that are roots of the quACK's polynomial, in
    /// the order and with the multiplicity they have in the log.
    pub fn decode_with_log(&self, log: &[u16]) -> (r: Vec<u16>)
        requires
            self.wf(),
            self.spec_count() <= self.sums().len(),
        ensures
            self.spec_count() == 0 ==> r@.len() == 0,
            self.spec_count() != 0 ==> r@ == decoded(newton_coeffs(self.sums(), self.spec_count() as nat), log@),
    {
        if self.count == 0 {
            return Vec::new();
        }
        let coeffs = self.coeffs_wide();
        let ghost c = ints(coeffs@);
        let mut out: Vec<u16> = Vec::new();
        let mut i: usize = 0;
        while i < log.len()
            invariant
                i <= log@.len(),
                c == ints(coeffs@),
                out@ == decoded(c, log@.take(i as int)),
            decreases log@.len() - i,
        {
            let x = log[i];
            let e = eval(&coeffs, x as u32);
            proof {
                assert(log@.take(i + 1) =~= log@.take(i as int).push(x));
                log@.take(i as int).lemma_filter_push(x, |x: u16| horner(c, fmod(x as int)) == 0);
            }
            if e == 0 {
                out.push(x);
            }
            i = i + 1;
        }
        assert(log@.take(log@.len() as int) =~= log@);
        out
    }
}

/// A sequence of `u16` as mathematical integers.
pub open spec fn ints16(v: Seq<u16>) -> Seq<int> {
    v.map_values(|x: u16| x as int)
}

/// The field elements of `v`, each below `2^16`, as `u16`.
fn narrow(v: &Vec<u32>) -> (r: Vec<u16>)
    requires
        canonical(ints(v@)),
    ensures
        ints16(r@) == ints(v@),
        r@.len() == v@.len(),
{
    let mut out: Vec<u16> = Vec::new();
    let mut i: usize = 0;
    while i < v.len()
        invariant
            i <= v@.len(),
            canonical(ints(v@)),
            ints16(out@) == ints(v@).take(i as int),
        decreases v@.len() - i,
    {
        assert(ints(v@)[i as int] < modulus());
        let ghost before = out@;
        out.push(v[i] as u16);
        assert(ints16(out@) =~= ints16(before).push(v@[i as int] as int));
        i = i + 1;
        assert(ints(v@).take(i as int) =~= ints(v@).take(i - 1).push(v@[i - 1] as int));
    }
    assert(ints(v@).take(v@.len() as int) =~= ints(v@));
    out
}

/// Evaluates the monic polynomial with coefficients `coeffs` (leading one
/// left out) at `x` in the field.
pub fn eval(coeffs: &Vec<u32>, x: u32) -> (r: u32)
    ensures
        r as int == horner(ints(coeffs@), fmod(x as int)),
{
    let xm = x % PRIME_U16;
    let mut r: u32 = 1;
    let mut i: usize = 0;
    proof {
        lemma_small_mod(1, modulus() as nat);
        assert(ints(coeffs@).take(0).len() == 0);
    }
    while i < coeffs.len()
        invariant
            i <= coeffs@.len(),
            xm as int == fmod(x as int),
            r as int == horner(ints(coeffs@).take(i as int), xm as int),
        decreases coeffs@.len() - i,
    {
        proof {
            assert(ints(coeffs@).take(i + 1).drop_last() =~= ints(coeffs@).take(i as int));
        }
        r = add_and_mod(mul_and_mod(r, xm), coeffs[i]);
        i = i + 1;
    }
    assert(ints(coeffs@).take(coeffs@.len() as int) =~= ints(coeffs@));
    r
}

} // verus!
