//! Summaries of benchmark timings.
use vstd::prelude::*;

verus! {

broadcast use vstd::seq_lib::group_to_multiset_ensures;

/// `s` is in ascending order.
pub open spec fn sorted(s: Seq<u64>) -> bool {
    forall|a: int, b: int| 0 <= a < b < s.len() ==> s[a] <= s[b]
}

/// The median of a sorted, non-empty sequence: its middle entry, or the
/// mean, rounded down, of its two middle entries.
pub open spec fn median_of_sorted(s: Seq<u64>) -> int {
    let mid = (s.len() / 2) as int;
    if s.len() % 2 == 0 {
        (s[mid - 1] + s[mid]) / 2
    } else {
        s[mid] as int
    }
}

/// `results` in ascending order.
pub fn sort_ascending(results: &Vec<u64>) -> (r: Vec<u64>)
    ensures
        sorted(r@),
        r@.to_multiset() == results@.to_multiset(),
{
    let mut out: Vec<u64> = Vec::new();
    let mut i: usize = 0;
    while i < results.len()
        invariant
            i <= results@.len(),
            sorted(out@),
            out@.to_multiset() == results@.take(i as int).to_multiset(),
        decreases results@.len() - i,
    {
        let x = results[i];
        let mut p: usize = 0;
        while p < out.len() && out[p] <= x
            invariant
                p <= out@.len(),
                forall|k: int| 0 <= k < p ==> out@[k] <= x,
            decreases out@.len() - p,
        {
            p = p + 1;
        }
        let ghost before = out@;
        out.insert(p, x);
        proof {
            vstd::seq_lib::to_multiset_insert(before, p as int, x);
            assert(results@.take(i + 1) =~= results@.take(i as int).push(x));
            assert forall|a: int, b: int| 0 <= a < b < out@.len() implies out@[a] <= out@[b] by {
                if b < p {
                } else if b == p {
                    assert(out@[a] == before[a]);
                } else if a == p {
                    assert(out@[b] == before[b - 1]);
                    if p < before.len() {
                        assert(before[p as int] > x);
                        assert(before[p as int] <= before[b - 1]);
                    }
                } else if a < p {
                    assert(out@[b] == before[b - 1]);
                } else {
                    assert(out@[a] == before[a - 1]);
                    assert(out@[b] == before[b - 1]);
                }
            }
        }
        i = i + 1;
    }
    assert(results@.take(results@.len() as int) =~= results@);
    out
}

/// The median of the timings, in nanoseconds.
pub fn median(results: &Vec<u64>) -> (r: u64)
    requires
        results@.len() > 0,
    ensures
        exists|s: Seq<u64>|
            #![trigger median_of_sorted(s)]
            sorted(s) && s.to_multiset() == results@.to_multiset() && r == median_of_sorted(s),
{
    let s = sort_ascending(results);
    proof {
        assert(s@.len() == results@.len()) by {
            vstd::seq_lib::to_multiset_len(s@);
            vstd::seq_lib::to_multiset_len(results@);
        }
    }
    let mid = s.len() / 2;
    let r = if s.len() % 2 == 0 {
        ((s[mid - 1] as u128 + s[mid] as u128) / 2) as u64
    } else {
        s[mid]
    };
    assert(median_of_sorted(s@) == r);
    r
}

} // verus!
