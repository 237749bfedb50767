//! The deterministic sequence of cells a source symbol covers.
use vstd::prelude::*;
use super::HashType;

verus! {

/// The odd multiplier of the mapping's generator, modulo `2^32`.
pub const MAPPING_MULTIPLIER: u32 = 0xe4dd58b5;

/// `d` is large enough a stride from `last` for the generator output
/// `s - 1`: `2d + 2 last + 3 >= 2^16 (2 last + 3) / sqrt(s)`, that is
/// `d >= (last + 1.5) (2^16 / sqrt(s) - 1)`.
pub open spec fn stride_ok(last: int, s: int, d: int) -> bool {
    (2 * d + 2 * last + 3) * (2 * d + 2 * last + 3) * s >= 0x1_0000_0000 * ((2 * last + 3) * (2 * last + 3))
}

/// `d` is the ceiling of `(last + 1.5) (2^16 / sqrt(s) - 1)`.
pub open spec fn is_stride(last: int, s: int, d: int) -> bool {
    &&& d >= 0
    &&& stride_ok(last, s, d)
    &&& (d == 0 || !stride_ok(last, s, d - 1))
}

/// The stride from `last` for the generator output `s - 1`.
pub open spec fn stride(last: int, s: int) -> int {
    choose|d: int| is_stride(last, s, d)
}

/// The generator's next output from the state `p`.
pub open spec fn next_prng(p: u32) -> int {
    (p * MAPPING_MULTIPLIER) % 0x1_0000_0000
}

/// The state after one step of the mapping: the generator advances, and
/// the index moves on by the stride, by one at least (the stride is zero
/// only for the largest generator output).
pub open spec fn next_state(m: RandomMapping) -> RandomMapping {
    let r = next_prng(m.prng);
    let d = stride(m.last_index as int, r + 1);
    let n = m.last_index + if d < 1 { 1 } else { d };
    RandomMapping { prng: r as u32, last_index: if n > 65535 { 65535 } else { n as u16 } }
}

/// The mapping's state after `k` steps from the source symbol `t`.
pub open spec fn state_at(t: HashType, k: nat) -> RandomMapping
    decreases k,
{
    if k == 0 {
        RandomMapping { prng: t, last_index: 0 }
    } else {
        next_state(state_at(t, (k - 1) as nat))
    }
}

/// The source symbol `t` covers the cell `i`.
pub open spec fn covers(t: HashType, i: int) -> bool {
    exists|k: nat| #[trigger] state_at(t, k).last_index == i
}

proof fn lemma_square_monotone(a: int, b: int, s: int)
    requires
        0 <= a <= b,
        0 <= s,
    ensures
        a * a * s <= b * b * s,
{
    assert(a * a <= b * b) by (nonlinear_arith)
        requires
            0 <= a <= b,
    ;
    assert(a * a * s <= b * b * s) by (nonlinear_arith)
        requires
            a * a <= b * b,
            0 <= s,
    ;
}

/// The stride is well defined.
pub proof fn lemma_stride_unique(last: int, s: int, d: int)
    requires
        last >= 0,
        s >= 0,
        is_stride(last, s, d),
    ensures
        stride(last, s) == d,
{
    let e = stride(last, s);
    assert(is_stride(last, s, e));
    if e < d {
        lemma_square_monotone(2 * e + 2 * last + 3, 2 * (d - 1) + 2 * last + 3, s);
    } else if d < e {
        lemma_square_monotone(2 * d + 2 * last + 3, 2 * (e - 1) + 2 * last + 3, s);
    }
}

/// A step never moves backwards, and moves forwards below the last cell.
pub proof fn lemma_next_state(m: RandomMapping)
    ensures
        next_state(m).last_index >= m.last_index,
        m.last_index < 65535 ==> next_state(m).last_index > m.last_index,
{
}

/// Below any large enough stride there is a least one.
proof fn lemma_least_stride(last: int, s: int, d: int)
    requires
        d >= 0,
        stride_ok(last, s, d),
    ensures
        exists|e: int| is_stride(last, s, e),
    decreases d,
{
    if d == 0 || !stride_ok(last, s, d - 1) {
        assert(is_stride(last, s, d));
    } else {
        lemma_least_stride(last, s, d - 1);
    }
}

/// Along the mapping, positions never decrease.
pub proof fn lemma_monotone(t: HashType, j: nat, k: nat)
    requires
        j <= k,
    ensures
        state_at(t, j).last_index <= state_at(t, k).last_index,
    decreases k - j,
{
    if j < k {
        lemma_monotone(t, j, (k - 1) as nat);
        lemma_next_state(state_at(t, (k - 1) as nat));
    }
}

/// Below the last cell, positions strictly increase along the mapping.
pub proof fn lemma_strict(t: HashType, j: nat, k: nat)
    requires
        j < k,
        state_at(t, j).last_index < 65535,
    ensures
        state_at(t, j).last_index < state_at(t, k).last_index,
{
    lemma_next_state(state_at(t, j));
    lemma_monotone(t, j + 1, k);
}

/// Generates the cells that a source symbol covers. Seeded with a uniformly
/// random state, cell `i` is in the sequence with probability
/// `1 / (1 + i / 2)`.
#[derive(Clone, Copy, Debug, PartialEq, Eq, Structural)]
pub struct RandomMapping {
    /// Generator state.
    pub prng: u32,
    /// The cell the symbol was last mapped to.
    pub last_index: u16,
}

/// Whether the source symbol `t` covers the cell `idx`.
pub fn mapping_covers(t: HashType, idx: usize) -> (r: bool)
    ensures
        r == covers(t, idx as int),
{
    let mut m = RandomMapping::new(t);
    let ghost mut k: nat = 0;
    loop
        invariant
            m == state_at(t, k),
            forall|j: nat| j < k ==> #[trigger] state_at(t, j).last_index < idx && state_at(t, j).last_index < 65535,
        decreases 65536 - m.last_index,
    {
        if m.last_index as usize == idx {
            return true;
        }
        if m.last_index as usize > idx || m.last_index == 65535 {
            proof {
                if covers(t, idx as int) {
                    let j = choose|j: nat| #[trigger] state_at(t, j).last_index == idx as int;
                    if j > k {
                        lemma_monotone(t, k, j);
                    }
                }
            }
            return false;
        }
        proof {
            lemma_next_state(m);
        }
        m.next_index();
        proof {
            k = k + 1;
        }
    }
}

/// `(2 d + a)^2 s >= 2^32 a^2`, in machine integers.
fn stride_test(a: u64, s: u64, d: u64) -> (r: bool)
    requires
        3 <= a <= 131073,
        1 <= s <= 0x1_0000_0000,
        d <= 32768 * a,
    ensures
        (a as int) % 2 == 1 ==> r == stride_ok((a as int - 3) / 2, s as int, d as int),
{
    let x = (2 * d + a) as u128;
    assert(x * x <= 0x1_0000_0000_0000_0000_0000) by (nonlinear_arith)
        requires
            x <= 65537 * 131073,
    ;
    assert(x * x * (s as u128) <= 0x1_0000_0000_0000_0000_0000_0000_0000) by (nonlinear_arith)
        requires
            x * x <= 0x1_0000_0000_0000_0000_0000,
            s <= 0x1_0000_0000,
    ;
    assert(0x1_0000_0000 * ((a as u128) * (a as u128)) <= 0x1_0000_0000_0000_0000_0000) by (nonlinear_arith)
        requires
            a <= 131073,
    ;
    x * x * (s as u128) >= 0x1_0000_0000 * ((a as u128) * (a as u128))
}

impl RandomMapping {
    /// The mapping of the source symbol `prng`, at cell `0`.
    pub fn new(prng: HashType) -> (r: Self)
        ensures
            r == state_at(prng, 0),
    {
        Self { prng, last_index: 0 }
    }

    /// Advances to the next cell and returns it.
    pub fn next_index(&mut self) -> (r: u16)
        ensures
            *final(self) == next_state(*old(self)),
            r == final(self).last_index,
    {
        assert((self.prng as u64) * (MAPPING_MULTIPLIER as u64) <= u64::MAX) by (nonlinear_arith)
            requires
                self.prng <= u32::MAX,
                MAPPING_MULTIPLIER <= u32::MAX,
        ;
        let r = (((self.prng as u64) * (MAPPING_MULTIPLIER as u64)) % 0x1_0000_0000) as u32;
        let s = (r as u64) + 1;
        let a = 2 * (self.last_index as u64) + 3;
        let ghost last = self.last_index as int;
        let mut lo: u64 = 0;
        let mut hi: u64 = 32768 * a;
        proof {
            assert((2 * hi + a) * (2 * hi + a) * s >= 0x1_0000_0000 * (a * a)) by (nonlinear_arith)
                requires
                    hi == 32768 * a,
                    a >= 3,
                    s >= 1,
            ;
        }
        while lo < hi
            invariant
                a == 2 * last + 3,
                0 <= last <= 65535,
                1 <= s <= 0x1_0000_0000,
                s == r + 1,
                lo <= hi <= 32768 * a,
                stride_ok(last, s as int, hi as int),
                lo == 0 || !stride_ok(last, s as int, lo - 1),
            decreases hi - lo,
        {
            let mid = lo + (hi - lo) / 2;
            if stride_test(a, s, mid) {
                hi = mid;
            } else {
                lo = mid + 1;
            }
        }
        proof {
            lemma_stride_unique(last, s as int, lo as int);
        }
        let step = if lo < 1 { 1 } else { lo };
        let n = (self.last_index as u64) + step;
        self.prng = r;
        self.last_index = if n > 65535 { 65535 } else { n as u16 };
        self.last_index
    }
}

} // verus!
