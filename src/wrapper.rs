//! Either kind of quACK behind one type, with a tagged wire form.
use vstd::prelude::*;
use crate::power_sum::{psum_wire, wire_sums, PowerSumQuackU32};
use crate::riblt::sketch::{iblt_wire, wire_cells, IBLTQuackU32};
use crate::wire::le32;
use crate::field::fmod;

verus! {

/// A power-sum or a rateless IBLT quACK.
#[derive(Clone, Debug)]
pub enum QuackWrapper {
    PowerSum(PowerSumQuackU32),
    IBLT(IBLTQuackU32),
}

/// Copies `src[..n]` into `buf` from position `off` on.
fn copy_into(buf: &mut [u8], off: usize, src: &[u8], n: usize)
    requires
        n <= src@.len(),
        off + n <= old(buf)@.len(),
    ensures
        final(buf)@.len() == old(buf)@.len(),
        final(buf)@.subrange(off as int, off + n) == src@.subrange(0, n as int),
        forall|i: int| 0 <= i < off ==> #[trigger] final(buf)@[i] == old(buf)@[i],
{
    let blen = buf.len();
    let mut i: usize = 0;
    while i < n
        invariant
            blen == buf@.len(),
            n <= src@.len(),
            off + n <= buf@.len(),
            buf@.len() == old(buf)@.len(),
            i <= n,
            forall|k: int| 0 <= k < i ==> #[trigger] buf@[off + k] == src@[k],
            forall|k: int| 0 <= k < off ==> #[trigger] buf@[k] == old(buf)@[k],
        decreases n - i,
    {
        buf[off + i] = src[i];
        i = i + 1;
    }
    assert forall|k: int| 0 <= k < n implies #[trigger] buf@.subrange(off as int, off + n)[k] == src@.subrange(0, n as int)[k] by {
        assert(buf@[off + k] == src@[k]);
    }
    assert(buf@.subrange(off as int, off + n) =~= src@.subrange(0, n as int));
}

impl QuackWrapper {
    /// The inner quACK is well formed.
    pub open spec fn wf(&self) -> bool {
        match self {
            QuackWrapper::PowerSum(q) => q.wf(),
            QuackWrapper::IBLT(_) => true,
        }
    }

    /// A rateless IBLT quACK of `threshold` cells when `riblt`, else a
    /// power-sum quACK of `threshold` power sums.
    pub fn new(threshold: usize, riblt: bool) -> (r: Self)
        ensures
            r.wf(),
            riblt ==> (r matches QuackWrapper::IBLT(q) && q.cells() == crate::riblt::sketch::empty_cells(threshold as nat)
                && q.spec_count() == 0 && q.spec_last_value().is_none()),
            !riblt ==> (r matches QuackWrapper::PowerSum(q) && q.sums() == crate::power_sum::zeros(threshold as nat)
                && q.spec_count() == 0 && q.spec_last_value().is_none()),
    {
        if riblt {
            QuackWrapper::IBLT(IBLTQuackU32::new(threshold))
        } else {
            QuackWrapper::PowerSum(PowerSumQuackU32::new(threshold))
        }
    }

    /// The quACK is a rateless IBLT.
    pub fn riblt(&self) -> (r: bool)
        ensures
            r == self.riblt_spec(),
    {
        match self {
            QuackWrapper::PowerSum(_) => false,
            QuackWrapper::IBLT(_) => true,
        }
    }

    /// The power-sum quACK inside.
    pub fn psum_inner(&self) -> (r: &PowerSumQuackU32)
        requires
            self matches QuackWrapper::PowerSum(_),
        ensures
            self matches QuackWrapper::PowerSum(q) && *r == q,
    {
        match self {
            QuackWrapper::PowerSum(inner) => inner,
            QuackWrapper::IBLT(_) => unreached(),
        }
    }

    /// The rateless IBLT quACK inside.
    pub fn iblt_inner(&self) -> (r: &IBLTQuackU32)
        requires
            self matches QuackWrapper::IBLT(_),
        ensures
            self matches QuackWrapper::IBLT(q) && *r == q,
    {
        match self {
            QuackWrapper::IBLT(inner) => inner,
            QuackWrapper::PowerSum(_) => unreached(),
        }
    }

    /// The inner quACK's threshold.
    pub fn threshold(&self) -> (r: usize)
        ensures
            r == match self {
                QuackWrapper::PowerSum(q) => q.sums().len(),
                QuackWrapper::IBLT(q) => q.cells().len(),
            },
    {
        match self {
            QuackWrapper::PowerSum(q) => q.threshold(),
            QuackWrapper::IBLT(q) => q.threshold(),
        }
    }

    /// The inner quACK's count.
    pub fn count(&self) -> (r: u32)
        ensures
            r == match self {
                QuackWrapper::PowerSum(q) => q.spec_count(),
                QuackWrapper::IBLT(q) => q.spec_count(),
            },
    {
        match self {
            QuackWrapper::PowerSum(q) => q.count(),
            QuackWrapper::IBLT(q) => q.count(),
        }
    }

    /// The inner quACK's last value.
    pub fn last_value(&self) -> (r: Option<u32>)
        ensures
            r == match self {
                QuackWrapper::PowerSum(q) => q.spec_last_value(),
                QuackWrapper::IBLT(q) => q.spec_last_value(),
            },
    {
        match self {
            QuackWrapper::PowerSum(q) => q.last_value(),
            QuackWrapper::IBLT(q) => q.last_value(),
        }
    }

    /// Inserts an element into the inner quACK.
    pub fn insert(&mut self, value: u32)
        requires
            old(self).wf(),
        ensures
            final(self).wf(),
            match (*old(self), *final(self)) {
                (QuackWrapper::PowerSum(a), QuackWrapper::PowerSum(b)) => b.sums()
                    == crate::power_sum::inserted(a.sums(), fmod(value as int)) && b.spec_count()
                    == a.spec_count().wrapping_add(1),
                (QuackWrapper::IBLT(a), QuackWrapper::IBLT(b)) => b.cells()
                    == crate::riblt::sketch::applied_where(a.cells(), value, crate::riblt::symbol::ADD)
                    && b.spec_count() == a.spec_count().wrapping_add(1),
                _ => false,
            },
    {
        match self {
            QuackWrapper::PowerSum(q) => q.insert(value),
            QuackWrapper::IBLT(q) => q.insert(value),
        }
    }

    /// Removes an element from the inner quACK.
    pub fn remove(&mut self, value: u32)
        requires
            old(self).wf(),
        ensures
            final(self).wf(),
            match (*old(self), *final(self)) {
                (QuackWrapper::PowerSum(a), QuackWrapper::PowerSum(b)) => b.sums()
                    == crate::power_sum::removed(a.sums(), fmod(value as int)) && b.spec_count()
                    == a.spec_count().wrapping_sub(1),
                (QuackWrapper::IBLT(a), QuackWrapper::IBLT(b)) => b.cells()
                    == crate::riblt::sketch::applied_where(a.cells(), value, crate::riblt::symbol::REMOVE)
                    && b.spec_count() == a.spec_count().wrapping_sub(1),
                _ => false,
            },
    {
        match self {
            QuackWrapper::PowerSum(q) => q.remove(value),
            QuackWrapper::IBLT(q) => q.remove(value),
        }
    }

    /// The two quACKs are of one kind and `rhs` can be subtracted from
    /// this one.
    pub open spec fn can_sub(&self, rhs: &Self) -> bool {
        match (*self, *rhs) {
            (QuackWrapper::PowerSum(a), QuackWrapper::PowerSum(b)) => a.sums().len() == b.sums().len(),
            (QuackWrapper::IBLT(a), QuackWrapper::IBLT(b)) => a.cells().len() == b.cells().len()
                && a.spec_count() >= b.spec_count(),
            _ => true,
        }
    }

    /// Subtracts `rhs` from the inner quACK; a quACK of the other kind
    /// leaves it as it is.
    pub fn sub_assign(&mut self, rhs: &Self)
        requires
            old(self).wf(),
            rhs.wf(),
            old(self).can_sub(rhs),
        ensures
            final(self).wf(),
            match (*old(self), *rhs, *final(self)) {
                (QuackWrapper::PowerSum(a), QuackWrapper::PowerSum(b), QuackWrapper::PowerSum(c)) => c.sums()
                    == crate::power_sum::subtracted(a.sums(), b.sums()) && c.spec_count()
                    == a.spec_count().wrapping_sub(b.spec_count()),
                (QuackWrapper::IBLT(a), QuackWrapper::IBLT(b), QuackWrapper::IBLT(c)) => c.cells()
                    == crate::riblt::sketch::subtracted_cells(a.cells(), b.cells()) && c.spec_count()
                    == a.spec_count() - b.spec_count(),
                (QuackWrapper::PowerSum(_), QuackWrapper::IBLT(_), _) => *final(self) == *old(self),
                (QuackWrapper::IBLT(_), QuackWrapper::PowerSum(_), _) => *final(self) == *old(self),
                _ => false,
            },
    {
        match self {
            QuackWrapper::PowerSum(q1) => {
                if let QuackWrapper::PowerSum(q2) = rhs {
                    q1.sub_assign(q2);
                }
            },
            QuackWrapper::IBLT(q1) => {
                if let QuackWrapper::IBLT(q2) = rhs {
                    q1.sub_assign(q2);
                }
            },
        }
    }

    /// The difference of two quACKs of one kind.
    pub fn sub(&self, rhs: &Self) -> (r: Self)
        requires
            self.wf(),
            rhs.wf(),
            self.riblt_spec() == rhs.riblt_spec(),
        ensures
            r.wf(),
            match (*self, *rhs, r) {
                (QuackWrapper::PowerSum(a), QuackWrapper::PowerSum(b), QuackWrapper::PowerSum(c)) => c.sums()
                    == crate::power_sum::subtracted(a.sums(), b.sums()) && c.spec_count()
                    == a.spec_count().wrapping_sub(b.spec_count()),
                (QuackWrapper::IBLT(a), QuackWrapper::IBLT(b), QuackWrapper::IBLT(c)) => c.cells()
                    == crate::riblt::sketch::subtracted_cells(a.cells(), b.cells()) && c.spec_count()
                    == a.spec_count().wrapping_sub(b.spec_count()),
                _ => false,
            },
    {
        match (self, rhs) {
            (QuackWrapper::PowerSum(q1), QuackWrapper::PowerSum(q2)) => QuackWrapper::PowerSum(q1.sub(q2)),
            (QuackWrapper::IBLT(q1), QuackWrapper::IBLT(q2)) => QuackWrapper::IBLT(q1.sub(q2)),
            _ => unreached(),
        }
    }

    /// The quACK is a rateless IBLT.
    pub open spec fn riblt_spec(&self) -> bool {
        self is IBLT
    }

    /// Writes a tag byte, `0` for a power-sum quACK and `1` for a rateless
    /// IBLT, then the inner quACK's wire form; returns the length.
    pub fn serialize(&self, buf: &mut [u8]) -> (r: usize)
        requires
            self.wf(),
            1 + self.wire_len() <= old(buf)@.len(),
        ensures
            final(buf)@.len() == old(buf)@.len(),
            match self {
                QuackWrapper::PowerSum(q) => {
                    &&& final(buf)@[0] == 0
                    &&& r == 1 + 8 + 4 * q.sums().len()
                    &&& psum_wire(final(buf)@.subrange(1, r as int), q.spec_count(), q.spec_last_value(), q.sums())
                },
                QuackWrapper::IBLT(q) => {
                    &&& final(buf)@[0] == 1
                    &&& r == 1 + 8 + 5 * q.cells().len()
                    &&& iblt_wire(final(buf)@.subrange(1, r as int), q.spec_count(), q.spec_last_value(), q.cells())
                },
            },
    {
        let blen = buf.len();
        let mut tmp: Vec<u8> = Vec::new();
        let mut i: usize = 1;
        while i < blen
            invariant
                1 <= i <= blen,
                tmp@.len() == i - 1,
            decreases blen - i,
        {
            tmp.push(0);
            i = i + 1;
        }
        let (tag, n) = match self {
            QuackWrapper::PowerSum(q) => (0u8, q.serialize(tmp.as_mut_slice())),
            QuackWrapper::IBLT(q) => (1u8, q.serialize(tmp.as_mut_slice())),
        };
        buf[0] = tag;
        let ghost t = tmp@;
        copy_into(buf, 1, tmp.as_slice(), n);
        assert(buf@.subrange(1, 1 + n) =~= t.subrange(0, n as int));
        1 + n
    }

    /// The length of the inner quACK's wire form.
    pub open spec fn wire_len(&self) -> nat {
        match self {
            QuackWrapper::PowerSum(q) => 8 + 4 * q.sums().len(),
            QuackWrapper::IBLT(q) => 8 + 5 * q.cells().len(),
        }
    }

    /// The number of power sums or cells of the inner quACK.
    pub open spec fn spec_threshold(&self) -> nat {
        match self {
            QuackWrapper::PowerSum(q) => q.sums().len(),
            QuackWrapper::IBLT(q) => q.cells().len(),
        }
    }

    /// Reads a quACK from its tagged wire form.
    pub fn deserialize(buf: &[u8]) -> (r: Self)
        requires
            9 <= buf@.len(),
            buf@[0] <= 1,
        ensures
            r.wf(),
            buf@[0] == 0 ==> (r matches QuackWrapper::PowerSum(q) && q.sums() == wire_sums(buf@.subrange(1, buf@.len() as int))
                && q.spec_count() == le32(buf@.subrange(1, buf@.len() as int), 0)
                && q.spec_last_value() == Some(le32(buf@.subrange(1, buf@.len() as int), 4) as u32)),
            buf@[0] == 1 ==> (r matches QuackWrapper::IBLT(q) && q.cells() == wire_cells(buf@.subrange(1, buf@.len() as int))
                && q.spec_count() == le32(buf@.subrange(1, buf@.len() as int), 0)
                && q.spec_last_value() == Some(le32(buf@.subrange(1, buf@.len() as int), 4) as u32)),
    {
        let rest = vstd::slice::slice_subrange(buf, 1, buf.len());
        if buf[0] == 0 {
            QuackWrapper::PowerSum(PowerSumQuackU32::deserialize(rest))
        } else {
            QuackWrapper::IBLT(IBLTQuackU32::deserialize(rest))
        }
    }
}

} // verus!
