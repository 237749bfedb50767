//! The window of source symbols an encoder holds, ordered by the next cell
//! each maps to.
use vstd::prelude::*;
use super::HashType;
use super::mapping::RandomMapping;

verus! {

/// A source symbol's next cell; the symbol is identified by its position
/// in the window.
#[derive(Clone, Copy, Debug)]
pub struct SymbolMapping {
    pub coded_idx: usize,
}

/// The positions of `s` are in min-heap order, but maybe at `skip`.
pub open spec fn heap_except(s: Seq<SymbolMapping>, skip: int) -> bool {
    forall|i: int| 0 < i < s.len() && i != skip ==> s[(i - 1) / 2].coded_idx <= #[trigger] s[i].coded_idx
}

/// The positions of `s` are in min-heap order.
pub open spec fn is_heap(s: Seq<SymbolMapping>) -> bool {
    heap_except(s, -1)
}

/// Restores heap order after the last entry was pushed or changed.
pub fn fix_tail(m: &mut Vec<SymbolMapping>)
    requires
        old(m)@.len() > 0,
        heap_except(old(m)@, old(m)@.len() - 1),
    ensures
        is_heap(final(m)@),
        final(m)@.to_multiset() == old(m)@.to_multiset(),
{
    broadcast use vstd::seq_lib::group_to_multiset_ensures;
    let mut curr = m.len() - 1;
    while curr != 0
        invariant
            curr < m@.len(),
            heap_except(m@, curr as int),
            curr > 0 ==> forall|c: int|
                0 < c < m@.len() && (c - 1) / 2 == curr ==> m@[(curr - 1) / 2].coded_idx <= #[trigger] m@[c].coded_idx,
            m@.to_multiset() == old(m)@.to_multiset(),
        ensures
            is_heap(m@),
            m@.to_multiset() == old(m)@.to_multiset(),
        decreases curr,
    {
        let parent = (curr - 1) / 2;
        if m[parent].coded_idx <= m[curr].coded_idx {
            assert(is_heap(m@));
            break;
        }
        let ghost before = m@;
        let a = m[parent];
        let b = m[curr];
        m.set(parent, b);
        m.set(curr, a);
        proof {
            assert(m@ =~= before.update(parent as int, b).update(curr as int, a));
            let s1 = before.update(parent as int, b);
            vstd::seq_lib::to_multiset_update(before, parent as int, b);
            vstd::seq_lib::to_multiset_update(s1, curr as int, a);
            assert(before[parent as int] == a);
            assert(before.contains(a));
            vstd::seq_lib::to_multiset_contains(before, a);
            assert(before.to_multiset().contains(a));
            assert(before.to_multiset().insert(b).remove(a).insert(a).remove(b) =~= before.to_multiset());
        }
        curr = parent;
    }
}

/// The source symbols an encoder holds and their mappings.
#[derive(Debug)]
pub struct CodingWindow {
    /// Source symbols.
    pub symbols: Vec<HashType>,
    /// The mapping generator of each source symbol.
    pub mappings: Vec<RandomMapping>,
    /// Source symbols ordered by the next cell they map to.
    pub queue: Vec<SymbolMapping>,
}

impl CodingWindow {
    /// An empty window.
    pub fn new() -> (r: Self)
        ensures
            r.symbols@.len() == 0,
            r.mappings@.len() == 0,
            r.queue@.len() == 0,
    {
        CodingWindow { symbols: Vec::new(), mappings: Vec::new(), queue: Vec::new() }
    }

    /// Adds the source symbol `t` with the current state `m` of its mapping.
    pub fn add_hash_with_mapping(&mut self, t: HashType, m: RandomMapping)
        requires
            is_heap(old(self).queue@),
        ensures
            final(self).symbols@ == old(self).symbols@.push(t),
            final(self).mappings@ == old(self).mappings@.push(m),
            is_heap(final(self).queue@),
            final(self).queue@.to_multiset() == old(self).queue@.to_multiset().insert(
                SymbolMapping { coded_idx: m.last_index as usize },
            ),
    {
        broadcast use vstd::seq_lib::group_to_multiset_ensures;
        self.symbols.push(t);
        self.mappings.push(m);
        self.queue.push(SymbolMapping { coded_idx: m.last_index as usize });
        fix_tail(&mut self.queue);
    }
}

} // verus!
