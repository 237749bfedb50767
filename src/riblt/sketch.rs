//! The rateless IBLT quACK.
use vstd::prelude::*;
use super::HashType;
use super::decoder::{lemma_reapplied_len, lemma_unapplied_len, unapplied, Decoder};
use super::mapping::{covers, lemma_monotone, lemma_next_state, lemma_strict, state_at, RandomMapping};
use super::symbol::{applied, CodedSymbol, Direction, ADD, REMOVE};
use crate::wire::{le32, read_u32_le, write_u32_le};

verus! {

/// `cells` with the source symbol `t` applied in direction `d` to every cell
/// it covers.
pub open spec fn applied_where(cells: Seq<CodedSymbol>, t: HashType, d: Direction) -> Seq<CodedSymbol> {
    Seq::new(cells.len(), |i: int| if covers(t, i) { applied(cells[i], t, d) } else { cells[i] })
}

/// `cells` with every source symbol of `list` added.
pub open spec fn reapplied(cells: Seq<CodedSymbol>, list: Seq<HashType>) -> Seq<CodedSymbol>
    decreases list.len(),
{
    if list.len() == 0 {
        cells
    } else {
        applied_where(reapplied(cells, list.drop_last()), list.last(), ADD)
    }
}

/// Every coded symbol is empty.
pub open spec fn all_zero(cells: Seq<CodedSymbol>) -> bool {
    forall|i: int| 0 <= i < cells.len() ==> #[trigger] cells[i] == (CodedSymbol { hash: 0, count: 0 })
}

/// Peeling `cells` has stalled: every cell that holds a single source
/// symbol by its count (one added; two-way, or one taken out) names a
/// symbol that does not cover it, so it cannot be resolved.
pub open spec fn stalled(cells: Seq<CodedSymbol>, two_way: bool) -> bool {
    forall|i: int|
        0 <= i < cells.len() && ((#[trigger] cells[i]).count == 1 || (two_way && cells[i].count == 255)) ==> !covers(
            cells[i].hash,
            i,
        )
}

/// `m` empty coded symbols.
pub open spec fn empty_cells(m: nat) -> Seq<CodedSymbol> {
    Seq::new(m, |i: int| CodedSymbol { hash: 0, count: 0 })
}

/// The `m` coded symbols of the multiset `list`.
pub open spec fn encoded(list: Seq<HashType>, m: nat) -> Seq<CodedSymbol> {
    reapplied(empty_cells(m), list)
}

/// `c` less the coded symbol `b`.
pub open spec fn cell_minus(c: CodedSymbol, b: CodedSymbol) -> CodedSymbol {
    applied(c, b.hash, ((256 - b.count) % 256) as u8)
}

/// The cellwise difference of two sketches, as long as the shorter one.
pub open spec fn subtracted_cells(a: Seq<CodedSymbol>, b: Seq<CodedSymbol>) -> Seq<CodedSymbol> {
    Seq::new(if a.len() <= b.len() { a.len() } else { b.len() }, |i: int| cell_minus(a[i], b[i]))
}

/// The cell `i` is among the first `k` positions of the mapping of `t`.
pub open spec fn visited(t: HashType, k: nat, i: int) -> bool {
    exists|j: nat| j < k && #[trigger] state_at(t, j).last_index == i
}

/// Applies `t` in direction `d` to every cell of `cells` that it covers;
/// returns the cells it changed. A mapping that reaches the last cell index
/// a `u16` can name stays there, and that cell is covered once.
pub fn apply_mapping(cells: &mut Vec<CodedSymbol>, t: HashType, d: Direction) -> (r: Vec<usize>)
    ensures
        final(cells)@ == applied_where(old(cells)@, t, d),
        forall|k: int| 0 <= k < r@.len() ==> #[trigger] r@[k] < final(cells)@.len(),
{
    let mut touched: Vec<usize> = Vec::new();
    let ghost c0 = cells@;
    let len = cells.len();
    let mut m = RandomMapping::new(t);
    let ghost mut k: nat = 0;
    loop
        invariant_except_break
            forall|j: nat| j < k ==> #[trigger] state_at(t, j).last_index < 65535,
            forall|i: int|
                0 <= i < len ==> #[trigger] cells@[i] == if visited(t, k, i) {
                    applied(c0[i], t, d)
                } else {
                    c0[i]
                },
        invariant
            len == cells@.len(),
            c0.len() == len,
            m == state_at(t, k),
            forall|q: int| 0 <= q < touched@.len() ==> #[trigger] touched@[q] < len,
        ensures
            cells@ == applied_where(c0, t, d),
        decreases 65536 - m.last_index,
    {
        if (m.last_index as usize) >= len {
            proof {
                assert forall|i: int| 0 <= i < len implies #[trigger] covers(t, i) == visited(t, k, i) by {
                    if covers(t, i) {
                        let j = choose|j: nat| #[trigger] state_at(t, j).last_index == i;
                        if j >= k {
                            lemma_monotone(t, k, j);
                        }
                    }
                }
                assert(cells@ =~= applied_where(c0, t, d));
            }
            break;
        }
        let idx = m.last_index as usize;
        proof {
            assert forall|j: nat| j < k implies #[trigger] state_at(t, j).last_index != idx by {
                lemma_strict(t, j, k);
            }
        }
        let mut c = cells[idx];
        c.apply(t, d);
        cells.set(idx, c);
        touched.push(idx);
        proof {
            assert forall|i: int| 0 <= i < len implies #[trigger] visited(t, k + 1, i) == (visited(t, k, i) || i == idx) by {
                if visited(t, k + 1, i) && !visited(t, k, i) {
                    let j = choose|j: nat| j < k + 1 && #[trigger] state_at(t, j).last_index == i;
                    assert(j == k);
                }
                if i == idx {
                    assert(state_at(t, k).last_index == i);
                }
            }
        }
        if m.last_index == 65535 {
            proof {
                assert forall|i: int| 0 <= i < len implies #[trigger] covers(t, i) == visited(t, k + 1, i) by {
                    if covers(t, i) {
                        let j = choose|j: nat| #[trigger] state_at(t, j).last_index == i;
                        if j > k {
                            lemma_monotone(t, k, j);
                        }
                    }
                }
                assert(cells@ =~= applied_where(c0, t, d));
            }
            break;
        }
        proof {
            lemma_next_state(m);
        }
        m.next_index();
        proof {
            k = k + 1;
        }
    }
    touched
}

/// The rateless IBLT quACK: a fixed number of coded symbols.
#[derive(Debug, Clone, PartialEq, Eq)]
pub struct IBLTQuackU32 {
    sketch: Vec<CodedSymbol>,
    last_value: Option<HashType>,
    count: u32,
}

/// `b` is the wire form of a sketch with count `count`, last value `last`
/// (zero when unknown) and cells `cells`: `count` and `last` as
/// little-endian `u32`, then each cell as its hash, little-endian, and its
/// count byte.
pub open spec fn iblt_wire(b: Seq<u8>, count: u32, last: Option<u32>, cells: Seq<CodedSymbol>) -> bool {
    &&& b.len() == 8 + 5 * cells.len()
    &&& le32(b, 0) == count
    &&& le32(b, 4) == match last {
        Some(v) => v,
        None => 0,
    }
    &&& forall|i: int|
        0 <= i < cells.len() ==> le32(b, 8 + 5 * i) == (#[trigger] cells[i]).hash && b[8 + 5 * i
            + 4] == cells[i].count
}

/// The cells carried by the wire form `b`.
pub open spec fn wire_cells(b: Seq<u8>) -> Seq<CodedSymbol> {
    Seq::new(
        ((b.len() - 8) / 5) as nat,
        |i: int| CodedSymbol { hash: le32(b, 8 + 5 * i) as u32, count: b[8 + 5 * i + 4] },
    )
}

impl IBLTQuackU32 {
    /// The coded symbols.
    pub closed spec fn cells(&self) -> Seq<CodedSymbol> {
        self.sketch@
    }

    /// The number of elements, modulo `2^32`.
    pub closed spec fn spec_count(&self) -> u32 {
        self.count
    }

    /// The last element inserted, if it is known.
    pub closed spec fn spec_last_value(&self) -> Option<u32> {
        self.last_value
    }

    /// Creates a sketch of `num_symbols` empty coded symbols.
    pub fn new(num_symbols: usize) -> (r: Self)
        ensures
            r.cells() == empty_cells(num_symbols as nat),
            r.spec_count() == 0,
            r.spec_last_value().is_none(),
    {
        let mut sketch: Vec<CodedSymbol> = Vec::new();
        let mut i: usize = 0;
        while i < num_symbols
            invariant
                i <= num_symbols,
                sketch@ =~= empty_cells(i as nat),
            decreases num_symbols - i,
        {
            sketch.push(CodedSymbol::empty());
            i = i + 1;
        }
        Self { sketch, last_value: None, count: 0 }
    }

    /// The number of coded symbols.
    pub fn threshold(&self) -> (r: usize)
        ensures
            r == self.cells().len(),
    {
        self.sketch.len()
    }

    /// The number of elements, modulo `2^32`.
    pub fn count(&self) -> (r: u32)
        ensures
            r == self.spec_count(),
    {
        self.count
    }

    /// The last element inserted, if it is known.
    pub fn last_value(&self) -> (r: Option<u32>)
        ensures
            r == self.spec_last_value(),
    {
        self.last_value
    }

    /// The coded symbols.
    pub fn sketch(&self) -> (r: &Vec<CodedSymbol>)
        ensures
            r@ == self.cells(),
    {
        &self.sketch
    }

    /// Inserts an element.
    pub fn insert(&mut self, t: HashType)
        ensures
            final(self).cells() == applied_where(old(self).cells(), t, ADD),
            final(self).spec_count() == old(self).spec_count().wrapping_add(1),
            final(self).spec_last_value() == Some(t),
    {
        self.count = self.count.wrapping_add(1);
        self.last_value = Some(t);
        apply_mapping(&mut self.sketch, t, ADD);
    }

    /// Removes an element. Does not check that it had been inserted.
    pub fn remove(&mut self, t: HashType)
        ensures
            final(self).cells() == applied_where(old(self).cells(), t, REMOVE),
            final(self).spec_count() == old(self).spec_count().wrapping_sub(1),
            final(self).spec_last_value() == old(self).spec_last_value(),
    {
        self.count = self.count.wrapping_sub(1);
        apply_mapping(&mut self.sketch, t, REMOVE);
    }

    /// Subtracts a sketch of the same size, whose elements are a subset of
    /// this one's.
    pub fn sub_assign(&mut self, s2: &Self)
        requires
            old(self).cells().len() == s2.cells().len(),
            old(self).spec_count() >= s2.spec_count(),
        ensures
            final(self).cells() == subtracted_cells(old(self).cells(), s2.cells()),
            final(self).spec_count() == old(self).spec_count() - s2.spec_count(),
            final(self).spec_last_value() == old(self).spec_last_value(),
    {
        self.count = self.count - s2.count;
        let ghost c0 = self.sketch@;
        let n = self.sketch.len();
        let mut i: usize = 0;
        while i < n
            invariant
                n == self.sketch@.len(),
                n == s2.sketch@.len(),
                c0.len() == n,
                i <= n,
                self.count == old(self).count - s2.count,
                self.last_value == old(self).last_value,
                forall|k: int| 0 <= k < i ==> #[trigger] self.sketch@[k] == cell_minus(c0[k], s2.sketch@[k]),
                forall|k: int| i <= k < n ==> #[trigger] self.sketch@[k] == c0[k],
            decreases n - i,
        {
            let x = s2.sketch[i];
            let mut c = self.sketch[i];
            c.apply(x.hash, 0u8.wrapping_sub(x.count));
            self.sketch.set(i, c);
            i = i + 1;
        }
        assert(self.sketch@ =~= subtracted_cells(c0, s2.sketch@));
    }

    /// The difference of two sketches, as long as the shorter one.
    pub fn sub(&self, rhs: &Self) -> (r: Self)
        ensures
            r.cells() == subtracted_cells(self.cells(), rhs.cells()),
            r.spec_count() == self.spec_count().wrapping_sub(rhs.spec_count()),
            r.spec_last_value().is_none(),
    {
        let n = if self.sketch.len() <= rhs.sketch.len() {
            self.sketch.len()
        } else {
            rhs.sketch.len()
        };
        let mut sketch: Vec<CodedSymbol> = Vec::new();
        let mut i: usize = 0;
        while i < n
            invariant
                n <= self.sketch@.len(),
                n <= rhs.sketch@.len(),
                n == subtracted_cells(self.sketch@, rhs.sketch@).len(),
                i <= n,
                sketch@.len() == i,
                forall|k: int| 0 <= k < i ==> #[trigger] sketch@[k] == subtracted_cells(self.sketch@, rhs.sketch@)[k],
            decreases n - i,
        {
            let x = rhs.sketch[i];
            let mut c = self.sketch[i];
            c.apply(x.hash, 0u8.wrapping_sub(x.count));
            sketch.push(c);
            i = i + 1;
        }
        assert(sketch@ =~= subtracted_cells(self.sketch@, rhs.sketch@));
        Self { sketch, last_value: None, count: self.count.wrapping_sub(rhs.count) }
    }

    /// Peels the sketch. Returns the elements it holds when every coded
    /// symbol could be resolved, in the order they were peeled.
    pub fn decode(self) -> (r: Option<Vec<HashType>>)
        ensures
            r matches Some(v) ==> encoded(v@, self.cells().len()) == self.cells(),
            self.cells() == empty_cells(self.cells().len()) ==> (r matches Some(v) && v@.len() == 0),
            r is None ==> exists|res: Seq<CodedSymbol>, rem: Seq<HashType>|
                #[trigger] reapplied(res, rem) == self.cells() && res.len() == self.cells().len() && !all_zero(res) && (
                stalled(res, false) || rem.len() >= res.len()),
    {
        let ghost cells = self.sketch@;
        let mut dec = Decoder::new(self.sketch);
        proof {
            if cells == empty_cells(cells.len()) {
                assert forall|i: int| 0 <= i < dec.cells().len() implies #[trigger] dec.cells()[i] == (CodedSymbol {
                    hash: 0,
                    count: 0,
                }) by {
                    assert(empty_cells(cells.len())[i] == (CodedSymbol { hash: 0, count: 0 }));
                }
            }
        }
        dec.try_decode();
        if dec.decoded() {
            proof {
                assert(dec.peeled_local() =~= Seq::<HashType>::empty());
                lemma_reapplied_len(dec.cells(), dec.peeled());
                assert(dec.cells() =~= empty_cells(cells.len()));
            }
            let r = dec.remote();
            Some(r)
        } else {
            proof {
                assert(dec.peeled_local() =~= Seq::<HashType>::empty());
                lemma_reapplied_len(dec.cells(), dec.peeled());
                assert(unapplied(reapplied(dec.cells(), dec.peeled()), dec.peeled_local()) == reapplied(dec.cells(), dec.peeled()));
                assert(!all_zero(dec.cells()));
                if dec.spec_done() {
                    assert(stalled(dec.cells(), false));
                }
                assert(reapplied(dec.cells(), dec.peeled()) == cells);
            }
            None
        }
    }

    /// Peels the sketch of `A` less `B` both ways. Returns the elements of
    /// `A` not in `B` and those of `B` not in `A` when every coded symbol
    /// could be resolved.
    pub fn decode_two_way(self) -> (r: Option<(Vec<HashType>, Vec<HashType>)>)
        ensures
            r matches Some((a, b)) ==> unapplied(encoded(a@, self.cells().len()), b@) == self.cells(),
            r is None ==> exists|res: Seq<CodedSymbol>, rem: Seq<HashType>, loc: Seq<HashType>|
                #[trigger] unapplied(reapplied(res, rem), loc) == self.cells() && res.len() == self.cells().len()
                    && !all_zero(res) && (stalled(res, true) || rem.len() + loc.len() >= res.len()),
    {
        let ghost cells = self.sketch@;
        let mut dec = Decoder::new_two_way(self.sketch);
        dec.try_decode();
        if dec.decoded() {
            let local = vec_copy(dec.local());
            proof {
                lemma_reapplied_len(dec.cells(), dec.peeled());
                lemma_unapplied_len(reapplied(dec.cells(), dec.peeled()), dec.peeled_local());
                assert(dec.cells() =~= empty_cells(cells.len()));
            }
            let remote = dec.remote();
            Some((remote, local))
        } else {
            proof {
                lemma_reapplied_len(dec.cells(), dec.peeled());
                lemma_unapplied_len(reapplied(dec.cells(), dec.peeled()), dec.peeled_local());
                assert(!all_zero(dec.cells()));
                if dec.spec_done() {
                    assert(stalled(dec.cells(), true));
                }
            }
            None
        }
    }

    /// Writes the sketch's wire form into `buf`; returns its length. An
    /// unknown last value is written as zero.
    pub fn serialize(&self, buf: &mut [u8]) -> (r: usize)
        requires
            8 + 5 * self.cells().len() <= old(buf)@.len(),
        ensures
            r == 8 + 5 * self.cells().len(),
            final(buf)@.len() == old(buf)@.len(),
            iblt_wire(final(buf)@.subrange(0, r as int), self.spec_count(), self.spec_last_value(), self.cells()),
    {
        let r = self.write_cells(buf, self.sketch.len());
        assert(self.cells().take(self.cells().len() as int) =~= self.cells());
        r
    }

    /// Like [`Self::serialize`], but writes only the first
    /// `min(threshold, 4 * num_missing)` cells: enough to peel `num_missing`
    /// elements.
    pub fn serialize_with_hint(&self, buf: &mut [u8], num_missing: usize) -> (r: usize)
        requires
            8 + 5 * self.cells().len() <= old(buf)@.len(),
        ensures
            ({
                let n = if 4 * num_missing < self.cells().len() { 4 * num_missing } else { self.cells().len() as int };
                &&& r == 8 + 5 * n
                &&& iblt_wire(final(buf)@.subrange(0, r as int), self.spec_count(), self.spec_last_value(), self.cells().take(n))
            }),
            final(buf)@.len() == old(buf)@.len(),
    {
        let len = self.sketch.len();
        let n = if num_missing > len / 4 {
            len
        } else {
            4 * num_missing
        };
        self.write_cells(buf, n)
    }

    /// Writes the header and the first `n` cells.
    fn write_cells(&self, buf: &mut [u8], n: usize) -> (r: usize)
        requires
            n <= self.cells().len(),
            8 + 5 * self.cells().len() <= old(buf)@.len(),
        ensures
            r == 8 + 5 * n,
            final(buf)@.len() == old(buf)@.len(),
            iblt_wire(final(buf)@.subrange(0, r as int), self.spec_count(), self.spec_last_value(), self.cells().take(n as int)),
    {
        let blen = buf.len();
        write_u32_le(buf, 0, self.count);
        let last = match self.last_value {
            Some(v) => v,
            None => 0,
        };
        write_u32_le(buf, 4, last);
        let mut i: usize = 0;
        while i < n
            invariant
                n <= self.sketch@.len(),
                8 + 5 * self.sketch@.len() <= buf@.len(),
                blen == buf@.len(),
                buf@.len() == old(buf)@.len(),
                i <= n,
                le32(buf@, 0) == self.count,
                le32(buf@, 4) == last,
                forall|k: int|
                    0 <= k < i ==> le32(buf@, 8 + 5 * k) == (#[trigger] self.sketch@[k]).hash && buf@[8 + 5 * k + 4]
                        == self.sketch@[k].count,
            decreases n - i,
        {
            let ghost before = buf@;
            let c = self.sketch[i];
            write_u32_le(buf, 8 + 5 * i, c.hash);
            buf[8 + 5 * i + 4] = c.count;
            proof {
                assert forall|k: int| 0 <= k < i implies le32(buf@, 8 + 5 * k) == (#[trigger] self.sketch@[k]).hash
                    && buf@[8 + 5 * k + 4] == self.sketch@[k].count by {
                    assert(le32(before, 8 + 5 * k) == self.sketch@[k].hash);
                }
            }
            i = i + 1;
        }
        let r = 8 + 5 * n;
        proof {
            let b = buf@.subrange(0, r as int);
            assert(le32(b, 0) == le32(buf@, 0));
            assert(le32(b, 4) == le32(buf@, 4));
            assert forall|k: int| 0 <= k < n implies le32(b, 8 + 5 * k) == (#[trigger] self.cells().take(n as int)[k]).hash
                && b[8 + 5 * k + 4] == self.cells().take(n as int)[k].count by {
                assert(le32(b, 8 + 5 * k) == le32(buf@, 8 + 5 * k));
            }
        }
        r
    }

    /// Reads a sketch from its wire form; the cells are as many as the
    /// buffer holds.
    pub fn deserialize(buf: &[u8]) -> (r: Self)
        requires
            8 <= buf@.len(),
        ensures
            r.spec_count() == le32(buf@, 0),
            r.spec_last_value() == Some(le32(buf@, 4) as u32),
            r.cells() == wire_cells(buf@),
    {
        let blen = buf.len();
        let n = (blen - 8) / 5;
        let mut sketch: Vec<CodedSymbol> = Vec::new();
        let mut i: usize = 0;
        while i < n
            invariant
                n == (buf@.len() - 8) / 5,
                8 <= buf@.len(),
                blen == buf@.len(),
                i <= n,
                sketch@.len() == i,
                forall|k: int| 0 <= k < i ==> #[trigger] sketch@[k] == wire_cells(buf@)[k],
            decreases n - i,
        {
            let hash = read_u32_le(buf, 8 + 5 * i);
            let count = buf[8 + 5 * i + 4];
            sketch.push(CodedSymbol { hash, count });
            i = i + 1;
        }
        let count = read_u32_le(buf, 0);
        let last = read_u32_le(buf, 4);
        let r = Self { sketch, last_value: Some(last), count };
        assert(r.cells() =~= wire_cells(buf@));
        r
    }
}

fn vec_copy(v: &Vec<HashType>) -> (r: Vec<HashType>)
    ensures
        r@ == v@,
{
    let mut out: Vec<HashType> = Vec::new();
    let mut i: usize = 0;
    while i < v.len()
        invariant
            i <= v@.len(),
            out@ == v@.take(i as int),
        decreases v@.len() - i,
    {
        out.push(v[i]);
        i = i + 1;
        assert(out@ =~= v@.take(i as int));
    }
    assert(v@.take(v@.len() as int) =~= v@);
    out
}

/// Reading back the wire form of a sketch gives the sketch again: the same
/// count and cells, and the last value, or zero where it was unknown. A hint
/// form that keeps `k` cells gives back the first `k`.
pub proof fn lemma_iblt_wire_round_trip(q: IBLTQuackU32, b: Seq<u8>, k: nat)
    requires
        k <= q.cells().len(),
        iblt_wire(b, q.spec_count(), q.spec_last_value(), q.cells().take(k as int)),
    ensures
        le32(b, 0) == q.spec_count(),
        le32(b, 4) == match q.spec_last_value() {
            Some(v) => v,
            None => 0u32,
        },
        wire_cells(b) == q.cells().take(k as int),
{
    let s = q.cells().take(k as int);
    assert forall|i: int| 0 <= i < k implies #[trigger] wire_cells(b)[i] == s[i] by {
        assert(le32(b, 8 + 5 * i) == s[i].hash);
    }
    assert(wire_cells(b) =~= s);
}

} // verus!
