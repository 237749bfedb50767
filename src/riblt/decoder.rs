//! The peeling decoder of the rateless IBLT.
use vstd::prelude::*;
use super::HashType;
use super::mapping::{covers, mapping_covers};
use super::sketch::{applied_where, apply_mapping, reapplied};
use super::symbol::{applied, CodedSymbol, Direction, ADD, REMOVE};

verus! {

/// The number of `false` entries.
pub open spec fn num_false(s: Seq<bool>) -> nat
    decreases s.len(),
{
    if s.len() == 0 {
        0
    } else {
        num_false(s.drop_last()) + if s.last() { 0nat } else { 1nat }
    }
}

proof fn lemma_num_false_set(s: Seq<bool>, i: int)
    requires
        0 <= i < s.len(),
        !s[i],
    ensures
        num_false(s.update(i, true)) + 1 == num_false(s),
    decreases s.len(),
{
    if i < s.len() - 1 {
        assert(s.update(i, true).drop_last() =~= s.drop_last().update(i, true));
        lemma_num_false_set(s.drop_last(), i);
    } else {
        assert(s.update(i, true).drop_last() =~= s.drop_last());
    }
}

/// Applying two source symbols commutes.
proof fn lemma_applied_commutes(c: CodedSymbol, a: HashType, d1: Direction, b: HashType, d2: Direction)
    ensures
        applied(applied(c, a, d1), b, d2) == applied(applied(c, b, d2), a, d1),
{
    let h = c.hash;
    assert((h ^ a) ^ b == (h ^ b) ^ a) by (bit_vector);
    let x = c.count as int;
    vstd::arithmetic::div_mod::lemma_add_mod_noop(x + d1, d2 as int, 256);
    vstd::arithmetic::div_mod::lemma_add_mod_noop(x + d2, d1 as int, 256);
    vstd::arithmetic::div_mod::lemma_small_mod(d1 as nat, 256);
    vstd::arithmetic::div_mod::lemma_small_mod(d2 as nat, 256);
    vstd::arithmetic::div_mod::lemma_mod_bound(x + d1, 256);
    vstd::arithmetic::div_mod::lemma_mod_bound(x + d2, 256);
    vstd::arithmetic::div_mod::lemma_mod_twice(x + d1, 256);
    vstd::arithmetic::div_mod::lemma_mod_twice(x + d2, 256);
}

/// Taking a source symbol out and adding it back is no change.
proof fn lemma_applied_cancels(c: CodedSymbol, t: HashType)
    ensures
        applied(applied(c, t, REMOVE), t, ADD) == c,
{
    let h = c.hash;
    assert((h ^ t) ^ t == h) by (bit_vector);
}

/// Applying two source symbols to a sketch in either order gives the same
/// cells.
pub proof fn lemma_where_commutes(x: Seq<CodedSymbol>, a: HashType, d1: Direction, b: HashType, d2: Direction)
    ensures
        applied_where(applied_where(x, a, d1), b, d2) == applied_where(applied_where(x, b, d2), a, d1),
{
    let l = applied_where(applied_where(x, a, d1), b, d2);
    let r = applied_where(applied_where(x, b, d2), a, d1);
    assert forall|i: int| 0 <= i < x.len() implies #[trigger] l[i] == r[i] by {
        lemma_applied_commutes(x[i], a, d1, b, d2);
    }
    assert(l =~= r);
}

proof fn lemma_reapplied_where(x: Seq<CodedSymbol>, t: HashType, d: Direction, list: Seq<HashType>)
    ensures
        reapplied(applied_where(x, t, d), list) == applied_where(reapplied(x, list), t, d),
    decreases list.len(),
{
    if list.len() > 0 {
        lemma_reapplied_where(x, t, d, list.drop_last());
        lemma_where_commutes(reapplied(x, list.drop_last()), t, d, list.last(), ADD);
    }
}

pub proof fn lemma_reapplied_len(x: Seq<CodedSymbol>, list: Seq<HashType>)
    ensures
        reapplied(x, list).len() == x.len(),
    decreases list.len(),
{
    if list.len() > 0 {
        lemma_reapplied_len(x, list.drop_last());
    }
}

/// Peeling `t` off the cells and adding it to the list of peeled symbols
/// leaves the source cells as they were.
proof fn lemma_peel(x: Seq<CodedSymbol>, t: HashType, list: Seq<HashType>)
    ensures
        reapplied(applied_where(x, t, REMOVE), list.push(t)) == reapplied(x, list),
{
    assert(list.push(t).drop_last() =~= list);
    lemma_reapplied_where(x, t, REMOVE, list);
    let y = reapplied(x, list);
    lemma_reapplied_len(x, list);
    let l = applied_where(applied_where(y, t, REMOVE), t, ADD);
    assert forall|i: int| 0 <= i < y.len() implies #[trigger] l[i] == y[i] by {
        lemma_applied_cancels(y[i], t);
    }
    assert(l =~= y);
}

/// `cells` with every source symbol of `list` taken out.
pub open spec fn unapplied(cells: Seq<CodedSymbol>, list: Seq<HashType>) -> Seq<CodedSymbol>
    decreases list.len(),
{
    if list.len() == 0 {
        cells
    } else {
        applied_where(unapplied(cells, list.drop_last()), list.last(), REMOVE)
    }
}

proof fn lemma_unapplied_where(x: Seq<CodedSymbol>, t: HashType, d: Direction, list: Seq<HashType>)
    ensures
        unapplied(applied_where(x, t, d), list) == applied_where(unapplied(x, list), t, d),
    decreases list.len(),
{
    if list.len() > 0 {
        lemma_unapplied_where(x, t, d, list.drop_last());
        lemma_where_commutes(unapplied(x, list.drop_last()), t, d, list.last(), REMOVE);
    }
}

pub proof fn lemma_unapplied_len(x: Seq<CodedSymbol>, list: Seq<HashType>)
    ensures
        unapplied(x, list).len() == x.len(),
    decreases list.len(),
{
    if list.len() > 0 {
        lemma_unapplied_len(x, list.drop_last());
    }
}

/// Peeling a local symbol `t` (adding it back to the cells) and listing it
/// as local leaves the source cells as they were.
proof fn lemma_peel_local(c: Seq<CodedSymbol>, t: HashType, remote: Seq<HashType>, local: Seq<HashType>)
    ensures
        unapplied(reapplied(applied_where(c, t, ADD), remote), local.push(t)) == unapplied(
            reapplied(c, remote),
            local,
        ),
{
    assert(local.push(t).drop_last() =~= local);
    lemma_reapplied_where(c, t, ADD, remote);
    let x = reapplied(c, remote);
    lemma_unapplied_where(x, t, ADD, local);
    let y = unapplied(x, local);
    lemma_reapplied_len(c, remote);
    lemma_unapplied_len(x, local);
    let l = applied_where(applied_where(y, t, ADD), t, REMOVE);
    assert forall|i: int| 0 <= i < y.len() implies #[trigger] l[i] == y[i] by {
        let h = y[i].hash;
        assert((h ^ t) ^ t == h) by (bit_vector);
    }
    assert(l =~= y);
}

/// Computes the set difference `A \ B` from the coded symbols of `A` less
/// those of `B`, by peeling. In the two-way form it also recovers `B \ A`
/// from the cells whose count is `-1`; in the subset form such cells stop
/// the decoding.
pub struct Decoder {
    /// Coded symbols received so far, with the peeled symbols taken out.
    cs: Vec<CodedSymbol>,
    /// Source symbols of `A` peeled so far.
    remote: Vec<HashType>,
    /// Source symbols of `B` peeled so far.
    local: Vec<HashType>,
    /// Cells of count `-1` are peeled too.
    two_way: bool,
    /// Peeling has run over every coded symbol received so far.
    ran: bool,
    /// Peeling stopped because no cell was left that it could resolve.
    done: bool,
    /// Cells waiting to be peeled.
    decodable: Vec<usize>,
    /// Cells that have been queued for peeling, at most once each.
    queued: Vec<bool>,
}

impl Decoder {
    /// The coded symbols, with the peeled source symbols taken out.
    pub closed spec fn cells(&self) -> Seq<CodedSymbol> {
        self.cs@
    }

    /// The source symbols peeled so far.
    pub closed spec fn peeled(&self) -> Seq<HashType> {
        self.remote@
    }

    /// The source symbols of `B` peeled so far.
    pub closed spec fn peeled_local(&self) -> Seq<HashType> {
        self.local@
    }

    /// Cells of count `-1` are peeled too.
    pub closed spec fn spec_two_way(&self) -> bool {
        self.two_way
    }

    /// Peeling has run over every coded symbol received so far.
    pub closed spec fn spec_ran(&self) -> bool {
        self.ran
    }

    /// Peeling stopped because no cell was left that it could resolve.
    pub closed spec fn spec_done(&self) -> bool {
        self.done
    }

    /// A cell holds a single source symbol, as far as its count tells: one
    /// added, or, two-way, one taken out.
    pub open spec fn pure_cell(&self, c: CodedSymbol) -> bool {
        c.count == 1 || (self.spec_two_way() && c.count == 255)
    }

    /// The coded symbols as received: the current cells with every peeled
    /// source symbol of `A` added back and every one of `B` taken out.
    pub open spec fn source(&self) -> Seq<CodedSymbol> {
        unapplied(reapplied(self.cells(), self.peeled()), self.peeled_local())
    }

    pub closed spec fn wf(&self) -> bool {
        &&& self.queued@.len() == self.cs@.len()
        &&& forall|k: int| 0 <= k < self.decodable@.len() ==> #[trigger] self.decodable@[k] < self.cs@.len()
    }

    /// Starts decoding from the coded symbols `cs`, for the subset
    /// difference `A \ B` where `B` is a subset of `A`.
    pub fn new(cs: Vec<CodedSymbol>) -> (r: Self)
        ensures
            r.wf(),
            r.cells() == cs@,
            r.peeled().len() == 0,
            r.peeled_local().len() == 0,
            r.source() == cs@,
            !r.spec_two_way(),
            !r.spec_ran(),
    {
        Self::with_mode(cs, false)
    }

    /// Starts decoding from the coded symbols `cs`, for both differences
    /// `A \ B` and `B \ A`.
    pub fn new_two_way(cs: Vec<CodedSymbol>) -> (r: Self)
        ensures
            r.wf(),
            r.cells() == cs@,
            r.peeled().len() == 0,
            r.peeled_local().len() == 0,
            r.source() == cs@,
            r.spec_two_way(),
            !r.spec_ran(),
    {
        Self::with_mode(cs, true)
    }

    fn with_mode(cs: Vec<CodedSymbol>, two_way: bool) -> (r: Self)
        ensures
            r.wf(),
            r.cells() == cs@,
            r.peeled().len() == 0,
            r.peeled_local().len() == 0,
            r.source() == cs@,
            r.spec_two_way() == two_way,
            !r.spec_ran(),
    {
        let mut decodable: Vec<usize> = Vec::new();
        let mut queued: Vec<bool> = Vec::new();
        let mut i: usize = 0;
        while i < cs.len()
            invariant
                i <= cs@.len(),
                queued@.len() == i,
                forall|k: int| 0 <= k < decodable@.len() ==> #[trigger] decodable@[k] < i,
            decreases cs@.len() - i,
        {
            let c = cs[i];
            if (c.count == 0 && c.hash == 0) || c.count == 1 || (two_way && c.count == 255) {
                decodable.push(i);
                queued.push(true);
            } else {
                queued.push(false);
            }
            i = i + 1;
        }
        let r = Self { cs, remote: Vec::new(), local: Vec::new(), two_way, ran: false, done: false, decodable, queued };
        assert(r.peeled() =~= Seq::<HashType>::empty());
        assert(r.peeled_local() =~= Seq::<HashType>::empty());
        r
    }

    /// Every coded symbol is resolved: there are none, or peeling has run
    /// and no source symbol is left in any.
    pub fn decoded(&self) -> (r: bool)
        ensures
            r == (self.cells().len() == 0 || (self.spec_ran() && forall|i: int|
                0 <= i < self.cells().len() ==> #[trigger] self.cells()[i] == (CodedSymbol { hash: 0, count: 0 }))),
    {
        if self.cs.len() == 0 {
            return true;
        }
        if !self.ran {
            return false;
        }
        let mut i: usize = 0;
        while i < self.cs.len()
            invariant
                i <= self.cs@.len(),
                forall|k: int| 0 <= k < i ==> #[trigger] self.cs@[k] == (CodedSymbol { hash: 0, count: 0 }),
            decreases self.cs@.len() - i,
        {
            let c = self.cs[i];
            if c.count != 0 || c.hash != 0 {
                assert(self.cells()[i as int] != (CodedSymbol { hash: 0, count: 0 }));
                return false;
            }
            i = i + 1;
        }
        true
    }

    /// The source symbols present in `A` but not in `B`.
    pub fn remote(self) -> (r: Vec<HashType>)
        ensures
            r@ == self.peeled(),
    {
        self.remote
    }

    /// The source symbols present in `B` but not in `A`, found so far.
    pub fn local(&self) -> (r: &Vec<HashType>)
        ensures
            r@ == self.peeled_local(),
    {
        &self.local
    }

    /// Appends the next coded symbol of `A`'s sequence.
    pub fn _add_coded_symbol(&mut self, c: CodedSymbol)
        requires
            old(self).wf(),
        ensures
            final(self).wf(),
            final(self).cells() == old(self).cells().push(c),
            final(self).peeled() == old(self).peeled(),
            final(self).peeled_local() == old(self).peeled_local(),
            !final(self).spec_ran(),
    {
        let idx = self.cs.len();
        self.cs.push(c);
        self.ran = false;
        self.done = false;
        if (c.count == 0 && c.hash == 0) || c.count == 1 || (self.two_way && c.count == 255) {
            self.decodable.push(idx);
            self.queued.push(true);
        } else {
            self.queued.push(false);
        }
    }

    /// Takes the source symbol `t` out of every cell it covers, and queues
    /// the cells that are left with a single source symbol.
    fn apply_new_symbol(&mut self, t: HashType, direction: Direction)
        requires
            old(self).wf(),
        ensures
            final(self).wf(),
            final(self).cells() == applied_where(old(self).cells(), t, direction),
            final(self).peeled() == old(self).peeled(),
            final(self).peeled_local() == old(self).peeled_local(),
            final(self).two_way == old(self).two_way,
            final(self).ran == old(self).ran,
            final(self).done == old(self).done,
            final(self).decodable@.len() >= old(self).decodable@.len(),
            forall|k: int| 0 <= k < old(self).decodable@.len() ==> #[trigger] final(self).decodable@[k] == old(self).decodable@[k],
            num_false(final(self).queued@) + final(self).decodable@.len() == num_false(old(self).queued@)
                + old(self).decodable@.len(),
    {
        let touched = apply_mapping(&mut self.cs, t, direction);
        let ghost d0 = self.decodable@;
        let mut i: usize = 0;
        while i < touched.len()
            invariant
                self.wf(),
                self.cs@ == applied_where(old(self).cs@, t, direction),
                self.remote == old(self).remote,
                self.local == old(self).local,
                self.two_way == old(self).two_way,
                self.ran == old(self).ran,
                self.done == old(self).done,
                forall|k: int| 0 <= k < touched@.len() ==> #[trigger] touched@[k] < self.cs@.len(),
                d0 == old(self).decodable@,
                self.decodable@.len() >= d0.len(),
                forall|k: int| 0 <= k < d0.len() ==> #[trigger] self.decodable@[k] == d0[k],
                num_false(self.queued@) + self.decodable@.len() == num_false(old(self).queued@) + d0.len(),
                i <= touched@.len(),
            decreases touched@.len() - i,
        {
            let idx = touched[i];
            let cnt = self.cs[idx].count;
            if (cnt == 1 || (self.two_way && cnt == 255)) && !self.queued[idx] {
                proof {
                    lemma_num_false_set(self.queued@, idx as int);
                }
                self.queued.set(idx, true);
                self.decodable.push(idx);
            }
            i = i + 1;
        }
    }

    /// Peels every coded symbol that can be peeled.
    pub fn try_decode(&mut self)
        requires
            old(self).wf(),
        ensures
            final(self).wf(),
            final(self).source() == old(self).source(),
            final(self).spec_two_way() == old(self).spec_two_way(),
            !old(self).spec_two_way() ==> final(self).peeled_local() == old(self).peeled_local(),
            final(self).spec_ran(),
            final(self).spec_done() ==> forall|i: int|
                0 <= i < final(self).cells().len() && final(self).pure_cell(#[trigger] final(self).cells()[i])
                    ==> !covers(final(self).cells()[i].hash, i),
            !final(self).spec_done() ==> final(self).peeled().len() + final(self).peeled_local().len() >= old(
                self,
            ).peeled().len() + old(self).peeled_local().len() + final(self).cells().len(),
            (forall|i: int| 0 <= i < old(self).cells().len() ==> #[trigger] old(self).cells()[i] == (CodedSymbol {
                hash: 0,
                count: 0,
            })) ==> final(self).cells() == old(self).cells() && final(self).peeled() == old(self).peeled()
                && final(self).peeled_local() == old(self).peeled_local(),
    {
        let ghost zero0 = forall|i: int| 0 <= i < old(self).cells().len() ==> #[trigger] old(self).cells()[i] == (CodedSymbol {
            hash: 0,
            count: 0,
        });
        let mut didx: usize = 0;
        while didx < self.decodable.len()
            invariant
                self.wf(),
                self.two_way == old(self).two_way,
                !self.two_way ==> self.local@ == old(self).local@,
                zero0 == forall|i: int| 0 <= i < old(self).cells().len() ==> #[trigger] old(self).cells()[i] == (CodedSymbol {
                    hash: 0,
                    count: 0,
                }),
                zero0 ==> self.cs@ == old(self).cs@ && self.remote@ == old(self).remote@ && self.local@ == old(self).local@,
                self.source() == old(self).source(),
                self.remote@.len() + self.local@.len() >= old(self).remote@.len() + old(self).local@.len(),
                didx <= self.decodable@.len(),
            decreases num_false(self.queued@) + self.decodable@.len() - didx,
        {
            let cidx = self.decodable[didx];
            let c = self.cs[cidx];
            if c.count == 1 {
                let ns = c.hash;
                let ghost before = self.cells();
                self.apply_new_symbol(ns, REMOVE);
                proof {
                    lemma_peel(before, ns, self.peeled());
                }
                self.remote.push(ns);
            } else if self.two_way && c.count == 255 {
                let ns = c.hash;
                let ghost before = self.cells();
                self.apply_new_symbol(ns, ADD);
                proof {
                    lemma_peel_local(before, ns, self.peeled(), self.peeled_local());
                }
                self.local.push(ns);
            } else if c.count != 0 {
                break;
            }
            didx = didx + 1;
        }
        self.decodable.clear();
        // sweep until no cell can be peeled: every cell left that looks
        // pure then names a symbol that does not cover it
        self.done = false;
        let n = self.cs.len();
        let mut rounds: usize = 0;
        let ghost base = old(self).remote@.len() + old(self).local@.len();
        while rounds < n && !self.done
            invariant
                self.wf(),
                n == self.cs@.len(),
                self.two_way == old(self).two_way,
                !self.two_way ==> self.local@ == old(self).local@,
                zero0 == forall|i: int| 0 <= i < old(self).cells().len() ==> #[trigger] old(self).cells()[i] == (CodedSymbol {
                    hash: 0,
                    count: 0,
                }),
                zero0 ==> self.cs@ == old(self).cs@ && self.remote@ == old(self).remote@ && self.local@ == old(self).local@,
                self.source() == old(self).source(),
                self.done ==> forall|i: int|
                    0 <= i < self.cells().len() && self.pure_cell(#[trigger] self.cells()[i]) ==> !covers(self.cells()[i].hash, i),
                rounds <= n,
                base == old(self).remote@.len() + old(self).local@.len(),
                !self.done ==> self.remote@.len() + self.local@.len() >= base + rounds,
            decreases n - rounds,
        {
            let mut progress = false;
            let ghost c_round = self.cs@;
            let ghost len_round = self.remote@.len() + self.local@.len();
            let mut i: usize = 0;
            while i < n
                invariant
                    self.wf(),
                    n == self.cs@.len(),
                    i <= n,
                    self.two_way == old(self).two_way,
                    !self.two_way ==> self.local@ == old(self).local@,
                    zero0 == forall|i: int| 0 <= i < old(self).cells().len() ==> #[trigger] old(self).cells()[i] == (CodedSymbol {
                        hash: 0,
                        count: 0,
                    }),
                    zero0 ==> self.cs@ == old(self).cs@ && self.remote@ == old(self).remote@ && self.local@ == old(self).local@,
                    self.source() == old(self).source(),
                    !self.done,
                    len_round >= base + rounds,
                    progress ==> self.remote@.len() + self.local@.len() > len_round,
                    !progress ==> self.remote@.len() + self.local@.len() == len_round,
                    !progress ==> self.cs@ == c_round,
                    !progress ==> forall|q: int|
                        0 <= q < i && self.pure_cell(#[trigger] c_round[q]) ==> !covers(c_round[q].hash, q),
                decreases n - i,
            {
                let c = self.cs[i];
                let pure = c.count == 1 || (self.two_way && c.count == 255);
                if pure && mapping_covers(c.hash, i) {
                    let ns = c.hash;
                    let ghost before = self.cells();
                    if c.count == 1 {
                        self.apply_new_symbol(ns, REMOVE);
                        proof {
                            lemma_peel(before, ns, self.peeled());
                        }
                        self.remote.push(ns);
                    } else {
                        self.apply_new_symbol(ns, ADD);
                        proof {
                            lemma_peel_local(before, ns, self.peeled(), self.peeled_local());
                        }
                        self.local.push(ns);
                    }
                    progress = true;
                }
                i = i + 1;
            }
            if !progress {
                self.done = true;
            }
            rounds = rounds + 1;
        }
        self.decodable.clear();
        self.ran = true;
    }
}

} // verus!
