//! Accumulators: what a router keeps of the packets it sees, and how a
//! verifier checks it against a log of the packets it should have seen.
use vstd::prelude::*;
use djb_hash::x33a_u32::X33aU32;
use djb_hash::HasherU32;
use std::hash::Hasher;
use crate::digest::{amh_extend, amh_value, le_nat, tagged_hash, hash_modulus, AdditiveMsetHash, AmhNonce};
use crate::field::{add_and_mod, fmod, modulus, mul_and_mod, sub_and_mod, LARGE_PRIME_U32};
use crate::wire::{le32, le_bytes, lemma_le_bytes, push_u32_le, read_u32_le};
use crate::power_sum::{
    canonical, eval, horner, inserted, ints, newton_coefficients, newton_coeffs, subtracted, zeros,
};

verus! {

/// Keeps the 31 low bits of an element's image.
pub const DJB_MASK: u32 = 0x7fff_ffff;

/// Bernstein's x33a hash of `s`: `h = 33 h + b` modulo `2^32` over the
/// bytes, from `5381`.
pub open spec fn djb(s: Seq<u8>) -> u32
    decreases s.len(),
{
    if s.len() == 0 {
        5381
    } else {
        ((djb(s.drop_last()) * 33 + s.last()) % 0x1_0000_0000) as u32
    }
}

/// An element's image in the power-sum field.
pub open spec fn image(s: Seq<u8>) -> u32 {
    (djb(s) % 0x8000_0000) as u32
}

/// Relies on djb_hash's `X33aU32`: `new` starts from `5381`, `write` folds
/// each byte as `h = (h << 5) + h + b` with wrapping, `finish_u32` returns `h`.
#[verifier::external_body]
pub fn elem_to_u32(elem: &[u8]) -> (r: u32)
    ensures
        r == djb(elem@),
{
    let mut hasher = X33aU32::new();
    hasher.write(elem);
    hasher.finish_u32()
}

/// The image of `elem`.
pub fn elem_image(elem: &[u8]) -> (r: u32)
    ensures
        r == image(elem@),
{
    let h = elem_to_u32(elem);
    assert(h & 0x7fff_ffff == h % 0x8000_0000) by (bit_vector);
    h & DJB_MASK
}

/// The byte strings of a log.
pub open spec fn views(log: Seq<Vec<u8>>) -> Seq<Seq<u8>> {
    log.map_values(|e: Vec<u8>| e@)
}

/// The entries of `l` whose flag in `keep` is set, in order.
pub open spec fn select(l: Seq<Seq<u8>>, keep: Seq<bool>) -> Seq<Seq<u8>>
    decreases l.len(),
{
    if l.len() == 0 || keep.len() == 0 {
        Seq::empty()
    } else {
        (if keep[0] { seq![l[0]] } else { Seq::empty() }) + select(l.drop_first(), keep.drop_first())
    }
}

/// The images of the entries of a log.
pub open spec fn images(log: Seq<Vec<u8>>) -> Seq<u32> {
    Seq::new(log.len(), |k: int| image(log[k]@))
}

proof fn lemma_power_sums_len(xs: Seq<u32>, n: nat)
    ensures
        power_sums_of(xs, n).len() == n,
    decreases xs.len(),
{
    if xs.len() > 0 {
        lemma_power_sums_len(xs.drop_last(), n);
    }
}

/// The power sums of `xs`, `n` of them.
pub open spec fn power_sums_of(xs: Seq<u32>, n: nat) -> Seq<int>
    decreases xs.len(),
{
    if xs.len() == 0 {
        zeros(n)
    } else {
        inserted(power_sums_of(xs.drop_last(), n), xs.last() as int)
    }
}

/// The outcome of a validation.
#[derive(Clone, Copy, Debug, PartialEq, Eq, Structural)]
pub enum ValidationResult {
    Valid,
    Invalid,
    PsumExceedsThreshold,
    PsumErrorFindingRoots,
    PsumCollisionsValid,
    PsumCollisionsInvalid,
    IbltIlpValid,
    IbltIlpInvalid,
}

impl ValidationResult {
    /// The log was accepted.
    pub open spec fn spec_is_valid(self) -> bool {
        self is Valid || self is PsumCollisionsValid || self is IbltIlpValid
    }

    /// The log was accepted.
    pub fn is_valid(&self) -> (r: bool)
        ensures
            r == self.spec_is_valid(),
    {
        match self {
            ValidationResult::Valid | ValidationResult::PsumCollisionsValid | ValidationResult::IbltIlpValid => true,
            _ => false,
        }
    }
}

/// Adds the powers `x, x^2, ...` of `x` to the power sums.
fn fold_power(sums: &mut Vec<u32>, x: u32)
    requires
        canonical(ints(old(sums)@)),
    ensures
        ints(final(sums)@) == inserted(ints(old(sums)@), x as int),
        canonical(ints(final(sums)@)),
        final(sums)@.len() == old(sums)@.len(),
{
    let ghost s0 = ints(sums@);
    let size = sums.len();
    let mut y = mul_and_mod(1, x);
    proof {
        vstd::arithmetic::power::lemma_pow1(x as int);
    }
    let mut i: usize = 0;
    while i < size
        invariant
            size == sums@.len(),
            s0.len() == size,
            canonical(s0),
            i <= size,
            y as int == fmod(vstd::arithmetic::power::pow(x as int, (i + 1) as nat)),
            forall|k: int| 0 <= k < i ==> #[trigger] ints(sums@)[k] == inserted(s0, x as int)[k],
            forall|k: int| i <= k < size ==> #[trigger] ints(sums@)[k] == s0[k],
        decreases size - i,
    {
        let v = add_and_mod(sums[i], y);
        proof {
            assert(ints(sums@)[i as int] == sums@[i as int] as int);
            vstd::arithmetic::div_mod::lemma_add_mod_noop_right(
                s0[i as int],
                vstd::arithmetic::power::pow(x as int, (i + 1) as nat),
                modulus(),
            );
            vstd::arithmetic::power::lemma_pow_adds(x as int, (i + 1) as nat, 1);
            vstd::arithmetic::power::lemma_pow1(x as int);
            vstd::arithmetic::div_mod::lemma_mul_mod_noop_left(
                vstd::arithmetic::power::pow(x as int, (i + 1) as nat),
                x as int,
                modulus(),
            );
        }
        let ghost before = ints(sums@);
        sums.set(i, v);
        assert(ints(sums@) =~= before.update(i as int, v as int));
        y = mul_and_mod(y, x);
        i = i + 1;
    }
    assert(ints(sums@) =~= inserted(s0, x as int));
}

/// The first `num_psums` power sums of `elems` in the field.
pub fn calculate_power_sums(elems: &Vec<u32>, num_psums: usize) -> (r: Vec<u32>)
    ensures
        ints(r@) == power_sums_of(elems@, num_psums as nat),
        canonical(ints(r@)),
{
    let mut sums: Vec<u32> = Vec::new();
    let mut i: usize = 0;
    while i < num_psums
        invariant
            i <= num_psums,
            sums@.len() == i,
            forall|k: int| 0 <= k < i ==> sums@[k] == 0,
        decreases num_psums - i,
    {
        sums.push(0);
        i = i + 1;
    }
    assert(ints(sums@) =~= zeros(num_psums as nat));
    assert(elems@.take(0) =~= Seq::<u32>::empty());
    let mut j: usize = 0;
    while j < elems.len()
        invariant
            j <= elems@.len(),
            ints(sums@) == power_sums_of(elems@.take(j as int), num_psums as nat),
            canonical(ints(sums@)),
        decreases elems@.len() - j,
    {
        fold_power(&mut sums, elems[j]);
        assert(elems@.take(j + 1).drop_last() =~= elems@.take(j as int));
        j = j + 1;
    }
    assert(elems@.take(elems@.len() as int) =~= elems@);
    sums
}

/// The entrywise difference `lhs - rhs` in the field, as long as the shorter.
pub fn calculate_difference(lhs: Vec<u32>, rhs: &Vec<u32>) -> (r: Vec<u32>)
    ensures
        ints(r@) == subtracted(ints(lhs@), ints(rhs@)),
        canonical(ints(r@)),
{
    let n = if lhs.len() <= rhs.len() { lhs.len() } else { rhs.len() };
    let mut out: Vec<u32> = Vec::new();
    let mut i: usize = 0;
    while i < n
        invariant
            n <= lhs@.len(),
            n <= rhs@.len(),
            n == subtracted(ints(lhs@), ints(rhs@)).len(),
            i <= n,
            out@.len() == i,
            forall|k: int| 0 <= k < i ==> #[trigger] ints(out@)[k] == subtracted(ints(lhs@), ints(rhs@))[k],
        decreases n - i,
    {
        let v = sub_and_mod(lhs[i], rhs[i]);
        proof {
            assert(subtracted(ints(lhs@), ints(rhs@))[i as int] == v as int);
        }
        let ghost before = out@;
        out.push(v);
        assert(ints(out@) =~= ints(before).push(v as int));
        i = i + 1;
    }
    assert(ints(out@) =~= subtracted(ints(lhs@), ints(rhs@)));
    out
}

/// The monic polynomial whose roots have the power sums `p`, leading
/// coefficient first: `[1, c_1, ..., c_n]`.
pub fn compute_polynomial_coefficients(p: Vec<u32>) -> (r: Vec<u32>)
    requires
        canonical(ints(p@)),
        p@.len() <= u32::MAX,
    ensures
        ints(r@) == seq![1int] + newton_coeffs(ints(p@), p@.len()),
{
    let c = newton_coefficients(&p);
    let mut out: Vec<u32> = Vec::new();
    out.push(1);
    let mut i: usize = 0;
    while i < c.len()
        invariant
            i <= c@.len(),
            ints(out@) == seq![1int] + ints(c@).take(i as int),
        decreases c@.len() - i,
    {
        let ghost before = out@;
        out.push(c[i]);
        assert(ints(out@) =~= ints(before).push(c@[i as int] as int));
        assert(ints(c@).take(i + 1) =~= ints(c@).take(i as int).push(c@[i as int] as int));
        assert(ints(out@) =~= seq![1int] + ints(c@).take(i + 1));
        i = i + 1;
    }
    assert(ints(c@).take(c@.len() as int) =~= ints(c@));
    out
}

/// `n` flags, all set.
pub open spec fn trues(n: nat) -> Seq<bool> {
    Seq::new(n, |i: int| true)
}

proof fn lemma_select_trues(l: Seq<Seq<u8>>, n: nat, k2: Seq<bool>)
    requires
        n <= l.len(),
        k2.len() == l.len() - n,
    ensures
        select(l, trues(n) + k2) == l.take(n as int) + select(l.skip(n as int), k2),
    decreases n,
{
    if n == 0 {
        assert(trues(0) + k2 =~= k2);
        assert(l.skip(0) =~= l);
        assert(l.take(0) + select(l, k2) =~= select(l, k2));
    } else {
        let t = trues(n) + k2;
        assert(t.drop_first() =~= trues((n - 1) as nat) + k2);
        lemma_select_trues(l.drop_first(), (n - 1) as nat, k2);
        assert(l.drop_first().skip((n - 1) as int) =~= l.skip(n as int));
        assert(l.take(n as int) =~= seq![l[0]] + l.drop_first().take((n - 1) as int));
    }
}

/// The number of set flags, counted from the front.
pub open spec fn count_cands(c: Seq<bool>) -> nat
    decreases c.len(),
{
    if c.len() == 0 {
        0
    } else {
        (if c[0] { 1nat } else { 0nat }) + count_cands(c.drop_first())
    }
}

/// `keep` picks which entries of `log[i..]` stay: it drops only entries
/// marked in `cand`, exactly `drops` of them, and adding the kept entries to
/// the hash value `v` gives `target`.
pub open spec fn fits(
    log: Seq<Seq<u8>>,
    cand: Seq<bool>,
    i: int,
    drops: int,
    v: nat,
    target: nat,
    keep: Seq<bool>,
) -> bool {
    &&& keep.len() == log.len() - i
    &&& forall|q: int| 0 <= q < keep.len() && !keep[q] ==> cand[i + q]
    &&& select(log.skip(i), keep).len() + drops == log.len() - i
    &&& amh_extend(v, select(log.skip(i), keep)) == target
}

proof fn lemma_select_len(l: Seq<Seq<u8>>, keep: Seq<bool>)
    ensures
        select(l, keep).len() <= l.len(),
    decreases l.len(),
{
    if l.len() > 0 && keep.len() > 0 {
        lemma_select_len(l.drop_first(), keep.drop_first());
    }
}

/// Entries that are not candidates are kept, so they can be added first.
proof fn lemma_fits_prefix(
    log: Seq<Seq<u8>>,
    cand: Seq<bool>,
    i: int,
    j: int,
    drops: int,
    v: nat,
    w: nat,
    target: nat,
    keep: Seq<bool>,
    k2: Seq<bool>,
)
    requires
        0 <= i <= j <= log.len(),
        cand.len() == log.len(),
        forall|q: int| i <= q < j ==> !cand[q],
        w == amh_extend(v, log.subrange(i, j)),
    ensures
        fits(log, cand, i, drops, v, target, keep) ==> fits(log, cand, j, drops, w, target, keep.skip(j - i)),
        fits(log, cand, j, drops, w, target, k2) ==> fits(log, cand, i, drops, v, target, trues((j - i) as nat) + k2),
{
    let m = (j - i) as nat;
    let l = log.skip(i);
    assert(l.take(m as int) =~= log.subrange(i, j));
    assert(l.skip(m as int) =~= log.skip(j));
    if fits(log, cand, i, drops, v, target, keep) {
        assert forall|q: int| 0 <= q < m implies keep[q] by {
            if !keep[q] {
                assert(cand[i + q]);
            }
        }
        let rest = keep.skip(m as int);
        assert(keep =~= trues(m) + rest);
        lemma_select_trues(l, m, rest);
        crate::digest::lemma_extend_concat(v, log.subrange(i, j), select(log.skip(j), rest));
        assert forall|q: int| 0 <= q < rest.len() && !rest[q] implies cand[j + q] by {
            assert(rest[q] == keep[m + q]);
        }
    }
    if fits(log, cand, j, drops, w, target, k2) {
        let keep2 = trues(m) + k2;
        lemma_select_trues(l, m, k2);
        crate::digest::lemma_extend_concat(v, log.subrange(i, j), select(log.skip(j), k2));
        assert forall|q: int| 0 <= q < keep2.len() && !keep2[q] implies cand[i + q] by {
            if q >= m {
                assert(keep2[q] == k2[q - m]);
            }
        }
    }
}

/// One step: the entry at `j` is kept or dropped.
proof fn lemma_fits_step(
    log: Seq<Seq<u8>>,
    cand: Seq<bool>,
    j: int,
    drops: int,
    w: nat,
    target: nat,
    keep: Seq<bool>,
    k2: Seq<bool>,
)
    requires
        0 <= j < log.len(),
        cand.len() == log.len(),
    ensures
        ({
            let w2 = (w + le_nat(tagged_hash(1, log[j]))) % hash_modulus();
            &&& fits(log, cand, j, drops, w, target, keep) ==> (keep[0] && fits(
                log,
                cand,
                j + 1,
                drops,
                w2,
                target,
                keep.drop_first(),
            )) || (!keep[0] && cand[j] && drops >= 1 && fits(log, cand, j + 1, drops - 1, w, target, keep.drop_first()))
            &&& fits(log, cand, j + 1, drops, w2, target, k2) ==> fits(log, cand, j, drops, w, target, seq![true] + k2)
            &&& (cand[j] && fits(log, cand, j + 1, drops - 1, w, target, k2)) ==> fits(
                log,
                cand,
                j,
                drops,
                w,
                target,
                seq![false] + k2,
            )
        }),
{
    let l = log.skip(j);
    let w2 = (w + le_nat(tagged_hash(1, log[j]))) % hash_modulus();
    assert(l.drop_first() =~= log.skip(j + 1));
    assert(l[0] == log[j]);
    vstd::arithmetic::power2::lemma_pow2_pos(256);
    if fits(log, cand, j, drops, w, target, keep) {
        let kd = keep.drop_first();
        assert(keep.len() > 0);
        assert forall|q: int| 0 <= q < kd.len() && !kd[q] implies cand[j + 1 + q] by {
            assert(kd[q] == keep[q + 1]);
        }
        if keep[0] {
            let rest = select(log.skip(j + 1), kd);
            assert(select(l, keep) == seq![l[0]] + rest);
            assert((seq![l[0]] + rest).drop_first() =~= rest);
            assert((seq![l[0]] + rest)[0] == l[0]);
        } else {
            assert(cand[j + 0]);
            assert(select(l, keep) =~= select(log.skip(j + 1), kd));
            lemma_select_len(log.skip(j + 1), kd);
        }
    }
    if fits(log, cand, j + 1, drops, w2, target, k2) {
        let k = seq![true] + k2;
        assert(k.drop_first() =~= k2);
        let rest = select(log.skip(j + 1), k2);
        assert(select(l, k) == seq![l[0]] + rest);
        assert((seq![l[0]] + rest).drop_first() =~= rest);
        assert((seq![l[0]] + rest)[0] == l[0]);
        assert forall|q: int| 0 <= q < k.len() && !k[q] implies cand[j + q] by {
            assert(k[q] == k2[q - 1]);
        }
    }
    if cand[j] && fits(log, cand, j + 1, drops - 1, w, target, k2) {
        let k = seq![false] + k2;
        assert(k.drop_first() =~= k2);
        assert(select(l, k) =~= select(log.skip(j + 1), k2));
        assert forall|q: int| 0 <= q < k.len() && !k[q] implies cand[j + q] by {
            if q > 0 {
                assert(k[q] == k2[q - 1]);
            }
        }
    }
}

/// A selection drops no more entries than there are candidates.
proof fn lemma_fits_bound(
    log: Seq<Seq<u8>>,
    cand: Seq<bool>,
    j: int,
    drops: int,
    w: nat,
    target: nat,
    keep: Seq<bool>,
)
    requires
        0 <= j <= log.len(),
        cand.len() == log.len(),
        fits(log, cand, j, drops, w, target, keep),
    ensures
        drops <= count_cands(cand.skip(j)),
    decreases log.len() - j,
{
    if j == log.len() {
        assert(keep.len() == 0);
        assert(select(log.skip(j), keep).len() == 0);
    } else {
        lemma_fits_step(log, cand, j, drops, w, target, keep, keep);
        let w2 = (w + le_nat(tagged_hash(1, log[j]))) % hash_modulus();
        assert(cand.skip(j).drop_first() =~= cand.skip(j + 1));
        assert(cand.skip(j)[0] == cand[j]);
        if keep[0] {
            lemma_fits_bound(log, cand, j + 1, drops, w2, target, keep.drop_first());
        } else {
            lemma_fits_bound(log, cand, j + 1, drops - 1, w, target, keep.drop_first());
        }
    }
}

/// Looks for a way to drop exactly `drops_left` entries of `log[i..]`,
/// each at a position marked in `cand`, such that adding the rest to `acc`
/// gives `target`'s hash; finds one whenever there is one. `cand_after[j]`
/// counts the candidates from `j` on, to cut the search short.
pub(crate) fn search(
    log: &Vec<Vec<u8>>,
    cand: &Vec<bool>,
    cand_after: &Vec<usize>,
    i: usize,
    drops_left: usize,
    acc: AdditiveMsetHash,
    target: &AdditiveMsetHash,
) -> (r: bool)
    requires
        i <= log@.len(),
        cand@.len() == log@.len(),
        cand_after@.len() == log@.len(),
        forall|j: int| 0 <= j < log@.len() ==> #[trigger] cand_after@[j] == count_cands(cand@.skip(j)),
    ensures
        r == exists|keep: Seq<bool>|
            #[trigger] fits(views(log@), cand@, i as int, drops_left as int, acc.hash_value(), target.hash_value(), keep),
    decreases log@.len() - i,
{
    let ghost lg = views(log@);
    let mut a = acc;
    let mut j = i;
    proof {
        assert(lg.subrange(i as int, i as int) =~= Seq::<Seq<u8>>::empty());
    }
    while j < log.len() && !cand[j]
        invariant
            i <= j <= log@.len(),
            cand@.len() == log@.len(),
            lg == views(log@),
            forall|q: int| i <= q < j ==> !cand@[q],
            a.hash_value() == amh_extend(acc.hash_value(), lg.subrange(i as int, j as int)),
        decreases log@.len() - j,
    {
        let ghost before = a.hash_value();
        a.add(log[j].as_slice());
        proof {
            let s = lg.subrange(i as int, j as int);
            let x = lg[j as int];
            assert(x == log@[j as int]@);
            assert(lg.subrange(i as int, j + 1) =~= s + seq![x]);
            crate::digest::lemma_extend_concat(acc.hash_value(), s, seq![x]);
            assert(seq![x].drop_first() =~= Seq::<Seq<u8>>::empty());
            assert(amh_extend(before, seq![x]) == amh_extend(
                (before + le_nat(tagged_hash(1, x))) % hash_modulus(),
                seq![x].drop_first(),
            ));
        }
        j = j + 1;
    }
    let ghost m = (j - i) as int;
    let ghost v0 = acc.hash_value();
    let ghost t = target.hash_value();
    let ghost d = drops_left as int;
    proof {
        assert forall|keep: Seq<bool>| #[trigger] fits(lg, cand@, i as int, d, v0, t, keep) implies fits(
            lg,
            cand@,
            j as int,
            d,
            a.hash_value(),
            t,
            keep.skip(m),
        ) by {
            lemma_fits_prefix(lg, cand@, i as int, j as int, d, v0, a.hash_value(), t, keep, keep);
        }
        assert forall|k2: Seq<bool>| #[trigger] fits(lg, cand@, j as int, d, a.hash_value(), t, k2) implies fits(
            lg,
            cand@,
            i as int,
            d,
            v0,
            t,
            trues(m as nat) + k2,
        ) by {
            lemma_fits_prefix(lg, cand@, i as int, j as int, d, v0, a.hash_value(), t, k2, k2);
        }
    }
    if j == log.len() {
        let r = drops_left == 0 && same(&a.hash, &target.hash);
        proof {
            let k0 = Seq::<bool>::empty();
            assert(lg.skip(j as int).len() == 0);
            assert(select(lg.skip(j as int), k0) =~= Seq::<Seq<u8>>::empty());
            if r {
                assert(fits(lg, cand@, j as int, d, a.hash_value(), t, k0));
                assert(fits(lg, cand@, i as int, d, v0, t, trues(m as nat) + k0));
            } else {
                if exists|keep: Seq<bool>| #[trigger] fits(lg, cand@, i as int, d, v0, t, keep) {
                    let keep = choose|keep: Seq<bool>| #[trigger] fits(lg, cand@, i as int, d, v0, t, keep);
                    let k2 = keep.skip(m);
                    assert(fits(lg, cand@, j as int, d, a.hash_value(), t, k2));
                    assert(k2.len() == 0);
                    assert(select(lg.skip(j as int), k2) =~= Seq::<Seq<u8>>::empty());
                    crate::digest::lemma_le_nat_injective(a.hash@, target.hash@);
                }
            }
        }
        return r;
    }
    if drops_left > cand_after[j] {
        proof {
            if exists|keep: Seq<bool>| #[trigger] fits(lg, cand@, i as int, d, v0, t, keep) {
                let keep = choose|keep: Seq<bool>| #[trigger] fits(lg, cand@, i as int, d, v0, t, keep);
                lemma_fits_bound(lg, cand@, j as int, d, a.hash_value(), t, keep.skip(m));
            }
        }
        return false;
    }
    let ghost w = a.hash_value();
    let ghost w2 = (w + le_nat(tagged_hash(1, lg[j as int]))) % hash_modulus();
    let mut dropped = false;
    if drops_left > 0 {
        dropped = search(log, cand, cand_after, j + 1, drops_left - 1, a, target);
    }
    let mut kept = a;
    kept.add(log[j].as_slice());
    proof {
        assert(lg[j as int] == log@[j as int]@);
    }
    let r = dropped || search(log, cand, cand_after, j + 1, drops_left, kept, target);
    proof {
        if dropped {
            let k2 = choose|k: Seq<bool>| #[trigger] fits(lg, cand@, j + 1, d - 1, w, t, k);
            lemma_fits_step(lg, cand@, j as int, d, w, t, k2, k2);
            assert(fits(lg, cand@, j as int, d, w, t, seq![false] + k2));
            assert(fits(lg, cand@, i as int, d, v0, t, trues(m as nat) + (seq![false] + k2)));
        } else if r {
            let k2 = choose|k: Seq<bool>| #[trigger] fits(lg, cand@, j + 1, d, w2, t, k);
            lemma_fits_step(lg, cand@, j as int, d, w, t, k2, k2);
            assert(fits(lg, cand@, j as int, d, w, t, seq![true] + k2));
            assert(fits(lg, cand@, i as int, d, v0, t, trues(m as nat) + (seq![true] + k2)));
        } else {
            if exists|keep: Seq<bool>| #[trigger] fits(lg, cand@, i as int, d, v0, t, keep) {
                let keep = choose|keep: Seq<bool>| #[trigger] fits(lg, cand@, i as int, d, v0, t, keep);
                let k = keep.skip(m);
                lemma_fits_step(lg, cand@, j as int, d, w, t, k, k);
                if k[0] {
                    assert(fits(lg, cand@, j + 1, d, w2, t, k.drop_first()));
                } else {
                    assert(fits(lg, cand@, j + 1, d - 1, w, t, k.drop_first()));
                }
            }
        }
    }
    r
}

/// For each position, the number of set flags from it on.
pub(crate) fn count_after(cand: &Vec<bool>) -> (r: Vec<usize>)
    ensures
        r@.len() == cand@.len(),
        forall|j: int| 0 <= j < cand@.len() ==> #[trigger] r@[j] == count_cands(cand@.skip(j)),
{
    let n = cand.len();
    let mut r: Vec<usize> = Vec::new();
    let mut i: usize = 0;
    while i < n
        invariant
            i <= n,
            n == cand@.len(),
            r@.len() == i,
        decreases n - i,
    {
        r.push(0);
        i = i + 1;
    }
    let mut acc: usize = 0;
    let mut k: usize = n;
    proof {
        assert(cand@.skip(n as int).len() == 0);
    }
    while k > 0
        invariant
            k <= n,
            n == cand@.len(),
            r@.len() == n,
            acc == count_cands(cand@.skip(k as int)),
            acc <= n - k,
            forall|j: int| k <= j < n ==> #[trigger] r@[j] == count_cands(cand@.skip(j)),
        decreases k,
    {
        k = k - 1;
        proof {
            assert(cand@.skip(k as int).drop_first() =~= cand@.skip(k + 1));
            assert(cand@.skip(k as int)[0] == cand@[k as int]);
        }
        if cand[k] {
            acc = acc + 1;
        }
        r.set(k, acc);
    }
    r
}

pub(crate) fn same(a: &[u8; 32], b: &[u8; 32]) -> (r: bool)
    ensures
        r == (a@ == b@),
        r ==> le_nat(a@) == le_nat(b@),
{
    let mut i: usize = 0;
    while i < 32
        invariant
            i <= 32,
            forall|k: int| 0 <= k < i ==> a@[k] == b@[k],
        decreases 32 - i,
    {
        if a[i] != b[i] {
            return false;
        }
        i = i + 1;
    }
    assert(a@ =~= b@);
    true
}

/// The digest of every entry of `log`, front first, under the nonce of
/// `start`, added to `start`.
pub(crate) fn digest_all(log: &Vec<Vec<u8>>, start: AdditiveMsetHash) -> (r: AdditiveMsetHash)
    ensures
        r.hash_value() == amh_extend(start.hash_value(), views(log@)),
        r.nonce == start.nonce,
{
    let mut d = start;
    let mut i: usize = 0;
    assert(views(log@).skip(0) =~= views(log@));
    while i < log.len()
        invariant
            i <= log@.len(),
            d.nonce == start.nonce,
            amh_extend(d.hash_value(), views(log@).skip(i as int)) == amh_extend(start.hash_value(), views(log@)),
        decreases log@.len() - i,
    {
        proof {
            assert(views(log@).skip(i as int).drop_first() =~= views(log@).skip(i + 1));
            assert(views(log@).skip(i as int)[0] == log@[i as int]@);
        }
        d.add(log[i].as_slice());
        i = i + 1;
    }
    assert(views(log@).skip(0) =~= views(log@));
    assert(views(log@).skip(log@.len() as int).len() == 0);
    d
}

/// Which entries of `log` were kept, when the rest hash to `target`: some
/// choice of entries, as many as `target` counts, whose hash under
/// `target`'s nonce is `target`'s.
pub open spec fn explains(log: Seq<Seq<u8>>, target: AdditiveMsetHash) -> bool {
    exists|keep: Seq<bool>|
        #![trigger select(log, keep)]
        keep.len() == log.len() && select(log, keep).len() == target.count && amh_value(target.nonce@, select(log, keep))
            == target.hash_value()
}

/// The power-sum accumulator: the multiset hash of the elements processed
/// and the first `threshold` power sums of their images.
#[derive(Debug, PartialEq, Eq)]
pub struct PowerSumAccumulator {
    pub digest: AdditiveMsetHash,
    pub power_sums: Vec<u32>,
}

impl PowerSumAccumulator {
    /// The power sums.
    pub open spec fn sums(&self) -> Seq<int> {
        ints(self.power_sums@)
    }

    /// The power sums are field elements, and fewer than `2^32`.
    pub open spec fn wf(&self) -> bool {
        &&& canonical(self.sums())
        &&& self.power_sums@.len() <= u32::MAX
    }

    /// An empty accumulator that can decode `threshold` drops; its nonce is
    /// drawn from `seed` when there is one.
    pub fn new(threshold: usize, seed: Option<u64>) -> (r: Self)
        requires
            threshold <= u32::MAX,
        ensures
            r.wf(),
            r.sums() == zeros(threshold as nat),
            r.digest.count == 0,
            r.digest.hash_value() == le_nat(tagged_hash(0, r.digest.nonce@)),
            seed matches Some(s) ==> r.digest.nonce@ == seed_nonce(s),
    {
        let digest = match seed {
            Some(s) => AdditiveMsetHash::new_with_seed(nonce_from_seed(s)),
            None => AdditiveMsetHash::new(),
        };
        let mut power_sums: Vec<u32> = Vec::new();
        let mut i: usize = 0;
        while i < threshold
            invariant
                i <= threshold,
                power_sums@.len() == i,
                forall|k: int| 0 <= k < i ==> power_sums@[k] == 0,
            decreases threshold - i,
        {
            power_sums.push(0);
            i = i + 1;
        }
        assert(ints(power_sums@) =~= zeros(threshold as nat));
        Self { digest, power_sums }
    }

    /// Empties the accumulator, under a new random nonce.
    pub fn reset(&mut self)
        requires
            old(self).wf(),
        ensures
            final(self).wf(),
            final(self).sums() == zeros(old(self).sums().len()),
            final(self).digest.count == 0,
    {
        *self = Self::new(self.power_sums.len(), None);
    }

    /// Processes one element.
    pub fn process(&mut self, elem: &[u8])
        requires
            old(self).wf(),
        ensures
            final(self).wf(),
            final(self).sums() == inserted(old(self).sums(), image(elem@) as int),
            final(self).digest.count == old(self).digest.count.wrapping_add(1),
            final(self).digest.nonce == old(self).digest.nonce,
            final(self).digest.hash_value() == (old(self).digest.hash_value() + le_nat(tagged_hash(1, elem@)))
                % hash_modulus(),
    {
        self.digest.add(elem);
        let x = elem_image(elem);
        fold_power(&mut self.power_sums, x);
    }

    /// Processes each element of `elems` in turn.
    pub fn process_batch(&mut self, elems: &Vec<Vec<u8>>)
        requires
            old(self).wf(),
        ensures
            final(self).wf(),
            final(self).sums().len() == old(self).sums().len(),
            final(self).digest.nonce == old(self).digest.nonce,
            final(self).digest.hash_value() == amh_extend(old(self).digest.hash_value(), views(elems@)),
            final(self).digest.count == (old(self).digest.count + elems@.len()) % 0x1_0000_0000,
    {
        let mut i: usize = 0;
        assert(views(elems@).skip(0) =~= views(elems@));
        while i < elems.len()
            invariant
                self.wf(),
                self.digest.count == (old(self).digest.count + i) % 0x1_0000_0000,
                i <= elems@.len(),
                self.sums().len() == old(self).sums().len(),
                self.digest.nonce == old(self).digest.nonce,
                amh_extend(self.digest.hash_value(), views(elems@).skip(i as int)) == amh_extend(
                    old(self).digest.hash_value(),
                    views(elems@),
                ),
            decreases elems@.len() - i,
        {
            proof {
                assert(views(elems@).skip(i as int).drop_first() =~= views(elems@).skip(i + 1));
                assert(views(elems@).skip(i as int)[0] == elems@[i as int]@);
            }
            self.process(elems[i].as_slice());
            i = i + 1;
        }
        assert(views(elems@).skip(0) =~= views(elems@));
        assert(views(elems@).skip(elems@.len() as int).len() == 0);
    }

    /// The number of elements processed.
    pub fn total(&self) -> (r: usize)
        ensures
            r == self.digest.count,
    {
        self.digest.count as usize
    }

    /// The accumulator's wire form.
    pub fn to_bytes(&self) -> (r: Vec<u8>)
        ensures
            r@ == acc_bytes(*self),
    {
        let mut out: Vec<u8> = Vec::new();
        let mut i: usize = 0;
        while i < 32
            invariant
                i <= 32,
                out@ == self.digest.hash@.take(i as int),
            decreases 32 - i,
        {
            out.push(self.digest.hash[i]);
            i = i + 1;
            assert(out@ =~= self.digest.hash@.take(i as int));
        }
        assert(self.digest.hash@.take(32) =~= self.digest.hash@);
        push_u32_le(&mut out, self.digest.count);
        let ghost head = out@;
        let mut k: usize = 0;
        while k < 16
            invariant
                k <= 16,
                out@ == head + self.digest.nonce@.take(k as int),
            decreases 16 - k,
        {
            out.push(self.digest.nonce[k]);
            k = k + 1;
            assert(out@ =~= head + self.digest.nonce@.take(k as int));
        }
        assert(self.digest.nonce@.take(16) =~= self.digest.nonce@);
        let ghost head2 = out@;
        let mut j: usize = 0;
        while j < self.power_sums.len()
            invariant
                j <= self.power_sums@.len(),
                out@ == head2 + sums_bytes(self.power_sums@.take(j as int)),
            decreases self.power_sums@.len() - j,
        {
            push_u32_le(&mut out, self.power_sums[j]);
            proof {
                assert(self.power_sums@.take(j + 1).drop_last() =~= self.power_sums@.take(j as int));
            }
            j = j + 1;
        }
        assert(self.power_sums@.take(self.power_sums@.len() as int) =~= self.power_sums@);
        out
    }

    /// Reads an accumulator from its wire form: `None` when the length is
    /// not that of a wire form or a power sum is not a field element.
    pub fn from_bytes(bytes: &Vec<u8>) -> (r: Option<Self>)
        ensures
            r matches Some(a) ==> {
                &&& a.wf()
                &&& a.digest.hash@ == bytes@.subrange(0, 32)
                &&& a.digest.count == le32(bytes@, 32)
                &&& a.digest.nonce@ == bytes@.subrange(36, 52)
                &&& a.power_sums@.len() == (bytes@.len() - 52) / 4
                &&& forall|i: int| 0 <= i < a.power_sums@.len() ==> #[trigger] a.power_sums@[i] == acc_wire_sum(bytes@, i)
            },
            r.is_none() <==> (bytes@.len() < 52 || (bytes@.len() - 52) % 4 != 0 || (bytes@.len() - 52) / 4 > u32::MAX
                || exists|i: int| 0 <= i < (bytes@.len() - 52) / 4 && #[trigger] acc_wire_sum(bytes@, i) >= LARGE_PRIME_U32),
    {
        let len = bytes.len();
        if len < 52 || (len - 52) % 4 != 0 || (len - 52) / 4 > u32::MAX as usize {
            return None;
        }
        let n = (len - 52) / 4;
        let mut hash: [u8; 32] = [0u8; 32];
        let mut i: usize = 0;
        while i < 32
            invariant
                i <= 32,
                52 <= bytes@.len(),
                hash@.len() == 32,
                forall|k: int| 0 <= k < i ==> #[trigger] hash@[k] == bytes@[k],
            decreases 32 - i,
        {
            hash.set(i, bytes[i]);
            i = i + 1;
        }
        let mut nonce: [u8; 16] = [0u8; 16];
        let mut k: usize = 0;
        while k < 16
            invariant
                k <= 16,
                52 <= bytes@.len(),
                nonce@.len() == 16,
                forall|q: int| 0 <= q < k ==> #[trigger] nonce@[q] == bytes@[36 + q],
            decreases 16 - k,
        {
            nonce.set(k, bytes[36 + k]);
            k = k + 1;
        }
        let count = read_u32_le(bytes.as_slice(), 32);
        let mut power_sums: Vec<u32> = Vec::new();
        let mut j: usize = 0;
        while j < n
            invariant
                j <= n,
                n == (bytes@.len() - 52) / 4,
                52 <= bytes@.len(),
                (bytes@.len() - 52) % 4 == 0,
                power_sums@.len() == j,
                len == bytes@.len(),
                n <= u32::MAX,
                forall|q: int| 0 <= q < j ==> #[trigger] power_sums@[q] == acc_wire_sum(bytes@, q),
                forall|q: int| 0 <= q < j ==> #[trigger] power_sums@[q] < LARGE_PRIME_U32,
            decreases n - j,
        {
            let v = read_u32_le(bytes.as_slice(), 52 + 4 * j);
            if v >= LARGE_PRIME_U32 {
                assert(acc_wire_sum(bytes@, j as int) >= LARGE_PRIME_U32);
                return None;
            }
            power_sums.push(v);
            j = j + 1;
        }
        assert(hash@ =~= bytes@.subrange(0, 32));
        assert(nonce@ =~= bytes@.subrange(36, 52));
        let digest = AdditiveMsetHash { hash, count, nonce };
        let r = Self { digest, power_sums };
        assert(canonical(r.sums()));
        assert forall|i: int| 0 <= i < (bytes@.len() - 52) / 4 implies #[trigger] acc_wire_sum(bytes@, i) < LARGE_PRIME_U32 by {
            assert(r.power_sums@[i] == acc_wire_sum(bytes@, i));
        }
        Some(r)
    }

    /// The power sums.
    pub fn power_sums(&self) -> (r: &Vec<u32>)
        ensures
            ints(r@) == self.sums(),
    {
        &self.power_sums
    }

    /// What validating `elems` returns: `Invalid` for a log shorter than
    /// the count; `PsumExceedsThreshold` exactly when more elements are
    /// missing than there are power sums; with nothing missing, `Valid`
    /// exactly when the log hashes to the digest, else `Invalid`. With
    /// `d` missing, the candidates are the log entries whose images are
    /// roots of the drop polynomial: fewer than `d` of them gives
    /// `PsumErrorFindingRoots`; otherwise the result is valid exactly when
    /// dropping `d` candidates leaves a log that hashes to the digest,
    /// `Valid`/`Invalid` when the candidates are exactly `d` and
    /// `PsumCollisionsValid`/`PsumCollisionsInvalid` when there are more.
    /// A valid result always means some sub-multiset of the log, as large as
    /// the count, hashes to the digest.
    pub open spec fn validated(&self, elems: Seq<Vec<u8>>, r: ValidationResult) -> bool {
        &&& elems.len() < self.digest.count ==> r == ValidationResult::Invalid
        &&& elems.len() >= self.digest.count ==> (r == ValidationResult::PsumExceedsThreshold <==> elems.len()
            - self.digest.count > self.sums().len())
        &&& elems.len() == self.digest.count ==> (r == ValidationResult::Valid <==> amh_value(
            self.digest.nonce@,
            views(elems),
        ) == self.digest.hash_value())
        &&& elems.len() == self.digest.count ==> (r == ValidationResult::Valid || r == ValidationResult::Invalid)
        &&& r.spec_is_valid() ==> explains(views(elems), self.digest)
        &&& (elems.len() > self.digest.count && elems.len() - self.digest.count <= self.sums().len()) ==> {
            let d = (elems.len() - self.digest.count) as nat;
            let nc = count_cands(self.root_cands(elems, d));
            let found = exists|keep: Seq<bool>|
                #[trigger] fits(
                    views(elems),
                    self.root_cands(elems, d),
                    0,
                    d as int,
                    le_nat(tagged_hash(0, self.digest.nonce@)),
                    self.digest.hash_value(),
                    keep,
                );
            &&& nc < d ==> r == ValidationResult::PsumErrorFindingRoots
            &&& nc == d ==> r == (if found { ValidationResult::Valid } else { ValidationResult::Invalid })
            &&& nc > d ==> r == (if found {
                ValidationResult::PsumCollisionsValid
            } else {
                ValidationResult::PsumCollisionsInvalid
            })
        }
    }

    /// The polynomial whose roots are the images of the `d` dropped
    /// entries: from the power sums of the log's images less ours.
    pub open spec fn drop_poly(&self, elems: Seq<Vec<u8>>, d: nat) -> Seq<int> {
        newton_coeffs(subtracted(power_sums_of(images(elems), d), self.sums()), d)
    }

    /// The log entries whose images are roots of the drop polynomial.
    pub open spec fn root_cands(&self, elems: Seq<Vec<u8>>, d: nat) -> Seq<bool> {
        Seq::new(elems.len(), |k: int| horner(self.drop_poly(elems, d), fmod(image(elems[k]@) as int)) == 0)
    }

    /// Checks that the processed elements are a sub-multiset of `elems`.
    ///
    /// The `d = |elems| - total` dropped elements are found from the
    /// difference of the power sums: the log entries whose images are roots
    /// of the polynomial it gives are the candidates, and the kept entries
    /// must hash to the stored digest.
    pub fn validate(&self, elems: &Vec<Vec<u8>>) -> (r: ValidationResult)
        requires
            self.wf(),
        ensures
            self.validated(elems@, r),
    {
        let total = self.digest.count as usize;
        if elems.len() < total {
            return ValidationResult::Invalid;
        }
        let d = elems.len() - total;
        if d > self.power_sums.len() {
            return ValidationResult::PsumExceedsThreshold;
        }
        let start = AdditiveMsetHash::new_with_seed(self.digest.nonce);
        if d == 0 {
            let all = digest_all(elems, start);
            if same(&all.hash, &self.digest.hash) {
                proof {
                    let keep = Seq::new(elems@.len(), |k: int| true);
                    lemma_select_all(views(elems@), keep);
                }
                return ValidationResult::Valid;
            }
            proof {
                if amh_value(self.digest.nonce@, views(elems@)) == self.digest.hash_value() {
                    lemma_le_bytes_same(all.hash@, self.digest.hash@);
                }
            }
            return ValidationResult::Invalid;
        }
        // images of the log, their power sums, and the difference with ours
        let mut imgs: Vec<u32> = Vec::new();
        let mut i: usize = 0;
        while i < elems.len()
            invariant
                i <= elems@.len(),
                imgs@.len() == i,
                forall|q: int| 0 <= q < i ==> #[trigger] imgs@[q] == image(elems@[q]@),
            decreases elems@.len() - i,
        {
            imgs.push(elem_image(elems[i].as_slice()));
            i = i + 1;
        }
        assert(imgs@ =~= images(elems@));
        let logged = calculate_power_sums(&imgs, d);
        proof {
            lemma_power_sums_len(imgs@, d as nat);
        }
        let diff = calculate_difference(logged, &self.power_sums);
        assert(ints(diff@).len() == diff@.len());
        assert(ints(self.power_sums@).len() == self.power_sums@.len());
        assert(ints(logged@).len() == logged@.len());
        let coeffs = compute_polynomial_coefficients(diff);
        assert(ints(coeffs@).len() == coeffs@.len());
        let ghost poly = self.drop_poly(elems@, d as nat);
        assert(ints(coeffs@) == seq![1int] + poly);
        assert(poly =~= (seq![1int] + poly).subrange(1, coeffs@.len() as int));
        // the candidates for dropping: entries whose images are roots
        let mut tail: Vec<u32> = Vec::new();
        let mut j: usize = 1;
        while j < coeffs.len()
            invariant
                1 <= j <= coeffs@.len(),
                tail@.len() == j - 1,
                ints(coeffs@) == seq![1int] + poly,
                poly == ints(coeffs@).subrange(1, coeffs@.len() as int),
                forall|q: int| 0 <= q < j - 1 ==> #[trigger] tail@[q] as int == poly[q],
            decreases coeffs@.len() - j,
        {
            proof {
                assert(ints(coeffs@)[j as int] == coeffs@[j as int] as int);
            }
            tail.push(coeffs[j]);
            j = j + 1;
        }
        assert(ints(tail@) =~= poly);
        let ghost rc = self.root_cands(elems@, d as nat);
        let mut cand: Vec<bool> = Vec::new();
        let mut k: usize = 0;
        while k < elems.len()
            invariant
                k <= elems@.len(),
                imgs@ == images(elems@),
                ints(tail@) == poly,
                rc == self.root_cands(elems@, d as nat),
                poly == self.drop_poly(elems@, d as nat),
                cand@.len() == k,
                forall|q: int| 0 <= q < k ==> #[trigger] cand@[q] == rc[q],
            decreases elems@.len() - k,
        {
            let root = eval(&tail, imgs[k]) == 0;
            cand.push(root);
            k = k + 1;
        }
        assert(cand@ =~= rc);
        let after = count_after(&cand);
        let ncand = after[0];
        assert(cand@.skip(0) =~= cand@);
        proof {
            assert(views(elems@).skip(0) =~= views(elems@));
        }
        if ncand < d {
            proof {
                if exists|keep: Seq<bool>| #[trigger] fits(views(elems@), rc, 0, d as int, start.hash_value(), self.digest.hash_value(), keep) {
                    let keep = choose|keep: Seq<bool>| #[trigger] fits(views(elems@), rc, 0, d as int, start.hash_value(), self.digest.hash_value(), keep);
                    lemma_fits_bound(views(elems@), rc, 0, d as int, start.hash_value(), self.digest.hash_value(), keep);
                }
            }
            return ValidationResult::PsumErrorFindingRoots;
        }
        let found = search(elems, &cand, &after, 0, d, start, &self.digest);
        if found {
            if ncand == d {
                ValidationResult::Valid
            } else {
                ValidationResult::PsumCollisionsValid
            }
        } else if ncand == d {
            ValidationResult::Invalid
        } else {
            ValidationResult::PsumCollisionsInvalid
        }
    }
}

/// The bytes of the power sums `s`, each little-endian.
pub open spec fn sums_bytes(s: Seq<u32>) -> Seq<u8>
    decreases s.len(),
{
    if s.len() == 0 {
        Seq::empty()
    } else {
        sums_bytes(s.drop_last()) + le_bytes(s.last())
    }
}

/// The `i`-th power sum of an accumulator's wire form.
pub open spec fn acc_wire_sum(b: Seq<u8>, i: int) -> int {
    le32(b, 52 + 4 * i)
}

/// The wire form of a power-sum accumulator: the hash, the count
/// little-endian, the nonce, then the power sums little-endian.
pub open spec fn acc_bytes(a: PowerSumAccumulator) -> Seq<u8> {
    a.digest.hash@ + le_bytes(a.digest.count) + a.digest.nonce@ + sums_bytes(a.power_sums@)
}

proof fn lemma_sums_bytes(s: Seq<u32>)
    ensures
        sums_bytes(s).len() == 4 * s.len(),
        forall|i: int| 0 <= i < s.len() ==> #[trigger] sums_bytes(s).subrange(4 * i, 4 * i + 4) == le_bytes(s[i]),
    decreases s.len(),
{
    if s.len() > 0 {
        let t = s.drop_last();
        lemma_sums_bytes(t);
        assert forall|i: int| 0 <= i < s.len() implies #[trigger] sums_bytes(s).subrange(4 * i, 4 * i + 4) == le_bytes(s[i]) by {
            if i < t.len() {
                assert(sums_bytes(s).subrange(4 * i, 4 * i + 4) =~= sums_bytes(t).subrange(4 * i, 4 * i + 4));
            } else {
                assert(sums_bytes(s).subrange(4 * i, 4 * i + 4) =~= le_bytes(s.last()));
            }
        }
    }
}

/// Reading back the wire form of an accumulator gives its hash, count,
/// nonce and power sums.
pub proof fn lemma_acc_round_trip(a: PowerSumAccumulator)
    ensures
        acc_bytes(a).len() == 52 + 4 * a.power_sums@.len(),
        acc_bytes(a).subrange(0, 32) == a.digest.hash@,
        le32(acc_bytes(a), 32) == a.digest.count,
        acc_bytes(a).subrange(36, 52) == a.digest.nonce@,
        forall|i: int| 0 <= i < a.power_sums@.len() ==> le32(acc_bytes(a), 52 + 4 * i) == #[trigger] a.power_sums@[i],
{
    let b = acc_bytes(a);
    let s = a.power_sums@;
    lemma_sums_bytes(s);
    assert(b.subrange(0, 32) =~= a.digest.hash@);
    assert(b.subrange(32, 36) =~= le_bytes(a.digest.count));
    lemma_le_bytes(a.digest.count, b, 32);
    assert(b.subrange(36, 52) =~= a.digest.nonce@);
    assert forall|i: int| 0 <= i < s.len() implies le32(b, 52 + 4 * i) == #[trigger] s[i] by {
        assert(b.subrange(52 + 4 * i, 52 + 4 * i + 4) =~= sums_bytes(s).subrange(4 * i, 4 * i + 4));
        lemma_le_bytes(s[i], b, 52 + 4 * i);
    }
}

/// With nothing dropped, validation is complete: an accumulator that has
/// processed exactly the entries of a log, from empty, accepts the log.
pub proof fn lemma_complete_without_drops(
    acc: PowerSumAccumulator,
    start: AdditiveMsetHash,
    log: Seq<Vec<u8>>,
    r: ValidationResult,
)
    requires
        start.hash_value() == le_nat(tagged_hash(0, start.nonce@)),
        acc.digest.nonce == start.nonce,
        acc.digest.hash_value() == amh_extend(start.hash_value(), views(log)),
        acc.digest.count == log.len(),
        acc.validated(log, r),
    ensures
        r == ValidationResult::Valid,
{
}

/// Equal hash values are equal bytes.
proof fn lemma_le_bytes_same(a: Seq<u8>, b: Seq<u8>)
    requires
        a.len() == b.len(),
        le_nat(a) == le_nat(b),
    ensures
        a == b,
{
    crate::digest::lemma_le_nat_injective(a, b);
}

/// Keeping every entry keeps the log.
pub(crate) proof fn lemma_select_all(l: Seq<Seq<u8>>, keep: Seq<bool>)
    requires
        keep.len() == l.len(),
        forall|k: int| 0 <= k < keep.len() ==> keep[k],
    ensures
        select(l, keep) == l,
    decreases l.len(),
{
    if l.len() > 0 {
        lemma_select_all(l.drop_first(), keep.drop_first());
        assert(l =~= seq![l[0]] + l.drop_first());
    }
}

/// `c` picks, for each image `removed[k]`, one entry of `log` with that
/// image.
pub open spec fn one_per_image(log: Seq<Seq<u8>>, removed: Seq<u32>, c: Seq<int>) -> bool {
    &&& c.len() == removed.len()
    &&& forall|k: int| 0 <= k < c.len() ==> 0 <= #[trigger] c[k] < log.len() && djb(log[c[k]]) == removed[k]
}

/// The positions of a log of length `n` that `c` picks.
pub open spec fn picked(n: nat, c: Seq<int>) -> Seq<bool> {
    Seq::new(n, |q: int| c.contains(q))
}

/// `c` picks one entry per image, and the log less the picked entries
/// hashes to `target` from `v`.
pub open spec fn choice_matches(log: Seq<Seq<u8>>, removed: Seq<u32>, c: Seq<int>, v: nat, target: nat) -> bool {
    &&& one_per_image(log, removed, c)
    &&& exists|keep: Seq<bool>| #[trigger] fits(log, picked(log.len(), c), 0, removed.len() as int, v, target, keep)
}

/// `c` agrees with `chosen` on its first entries.
pub open spec fn extends(c: Seq<int>, chosen: Seq<usize>) -> bool {
    &&& chosen.len() <= c.len()
    &&& forall|q: int| 0 <= q < chosen.len() ==> #[trigger] c[q] == chosen[q] as int
}

/// Tries every way to pick one entry per image of `removed[k..]`, after
/// the picks `chosen` for the images before; checks each full choice
/// against `target`.
fn choose_drops(
    log: &Vec<Vec<u8>>,
    imgs: &Vec<u32>,
    removed: &Vec<u32>,
    chosen: &mut Vec<usize>,
    start: AdditiveMsetHash,
    target: &AdditiveMsetHash,
) -> (r: bool)
    requires
        imgs@.len() == log@.len(),
        forall|q: int| 0 <= q < log@.len() ==> #[trigger] imgs@[q] == djb(log@[q]@),
        old(chosen)@.len() <= removed@.len(),
        forall|q: int|
            0 <= q < old(chosen)@.len() ==> #[trigger] old(chosen)@[q] < log@.len() && djb(log@[old(chosen)@[q] as int]@)
                == removed@[q],
    ensures
        final(chosen)@ == old(chosen)@,
        r == exists|c: Seq<int>|
            #![trigger choice_matches(views(log@), removed@, c, start.hash_value(), target.hash_value())]
            extends(c, old(chosen)@) && choice_matches(views(log@), removed@, c, start.hash_value(), target.hash_value()),
    decreases removed@.len() - old(chosen)@.len(),
{
    let ghost lg = views(log@);
    let ghost v = start.hash_value();
    let ghost t = target.hash_value();
    let ghost ch0 = chosen@;
    let k = chosen.len();
    let n = log.len();
    if k == removed.len() {
        let ghost c0 = Seq::new(k as nat, |q: int| chosen@[q] as int);
        let mut mask: Vec<bool> = Vec::new();
        let mut q: usize = 0;
        while q < n
            invariant
                q <= n,
                n == log@.len(),
                k == chosen@.len(),
                c0 == Seq::new(k as nat, |i: int| chosen@[i] as int),
                mask@.len() == q,
                forall|i: int| 0 <= i < q ==> #[trigger] mask@[i] == picked(n as nat, c0)[i],
            decreases n - q,
        {
            let mut hit = false;
            let mut p: usize = 0;
            while p < k
                invariant
                    p <= k,
                    k == chosen@.len(),
                    q < n,
                    c0 == Seq::new(k as nat, |i: int| chosen@[i] as int),
                    hit == exists|i: int| 0 <= i < p && c0[i] == q,
                decreases k - p,
            {
                if chosen[p] == q {
                    assert(c0[p as int] == q);
                    hit = true;
                }
                p = p + 1;
            }
            proof {
                if hit {
                    let i = choose|i: int| 0 <= i < k && c0[i] == q;
                    assert(c0.contains(q as int));
                } else {
                    if c0.contains(q as int) {
                        let i = choose|i: int| 0 <= i < c0.len() && c0[i] == q;
                        assert(c0[i] == q);
                    }
                }
            }
            mask.push(hit);
            q = q + 1;
        }
        assert(mask@ =~= picked(n as nat, c0));
        let after = count_after(&mask);
        let r = search(log, &mask, &after, 0, removed.len(), start, target);
        proof {
            assert(one_per_image(lg, removed@, c0));
            assert(extends(c0, ch0));
            if r {
                assert(choice_matches(lg, removed@, c0, v, t));
            } else {
                if exists|c: Seq<int>|
                    #![trigger choice_matches(lg, removed@, c, v, t)]
                    extends(c, ch0) && choice_matches(lg, removed@, c, v, t) {
                    let c = choose|c: Seq<int>|
                        #![trigger choice_matches(lg, removed@, c, v, t)]
                        extends(c, ch0) && choice_matches(lg, removed@, c, v, t);
                    assert(c =~= c0);
                }
            }
        }
        return r;
    }
    let mut p: usize = 0;
    while p < n
        invariant
            p <= n,
            n == log@.len(),
            k == chosen@.len(),
            k < removed@.len(),
            chosen@ == ch0,
            ch0 == old(chosen)@,
            lg == views(log@),
            v == start.hash_value(),
            t == target.hash_value(),
            imgs@.len() == log@.len(),
            forall|q: int| 0 <= q < log@.len() ==> #[trigger] imgs@[q] == djb(log@[q]@),
            forall|q: int| 0 <= q < k ==> #[trigger] chosen@[q] < log@.len() && djb(log@[chosen@[q] as int]@) == removed@[q],
            forall|c: Seq<int>|
                #![trigger choice_matches(lg, removed@, c, v, t)]
                extends(c, ch0) && choice_matches(lg, removed@, c, v, t) ==> c[k as int] >= p,
        decreases n - p,
    {
        if imgs[p] == removed[k] {
            chosen.push(p);
            let ghost pushed = chosen@;
            proof {
                assert(lg[p as int] == log@[p as int]@);
                assert(pushed =~= ch0.push(p));
            }
            let r = choose_drops(log, imgs, removed, chosen, start, target);
            let ghost ch1 = chosen@;
            assert(ch1 == pushed);
            assert(r == exists|c: Seq<int>|
                #![trigger choice_matches(lg, removed@, c, v, t)]
                extends(c, ch1) && choice_matches(lg, removed@, c, v, t));
            chosen.pop();
            proof {
                assert(chosen@ =~= ch0);
            }
            if r {
                proof {
                    let c = choose|c: Seq<int>|
                        #![trigger choice_matches(lg, removed@, c, v, t)]
                        extends(c, ch1) && choice_matches(lg, removed@, c, v, t);
                    assert(extends(c, ch1));
                    assert(ch1.len() == k + 1);
                    assert(extends(c, ch0)) by {
                        assert forall|q: int| 0 <= q < ch0.len() implies #[trigger] c[q] == ch0[q] as int by {
                            assert(ch1[q] == ch0[q]);
                            assert(c[q] == ch1[q] as int);
                        }
                    }
                }
                return true;
            }
            proof {
                assert forall|c: Seq<int>|
                    #![trigger choice_matches(lg, removed@, c, v, t)]
                    extends(c, ch0) && choice_matches(lg, removed@, c, v, t) implies c[k as int] >= p + 1 by {
                    if c[k as int] == p {
                        assert(ch1[k as int] == p);
                        assert(extends(c, ch1)) by {
                            assert(ch1.len() == k + 1);
                            assert forall|q: int| 0 <= q < ch1.len() implies #[trigger] c[q] == ch1[q] as int by {
                                if q < k {
                                    assert(ch1[q] == ch0[q]);
                                    assert(c[q] == ch0[q] as int);
                                }
                            }
                        }
                    }
                }
            }
        } else {
            proof {
                assert forall|c: Seq<int>|
                    #![trigger choice_matches(lg, removed@, c, v, t)]
                    extends(c, ch0) && choice_matches(lg, removed@, c, v, t) implies c[k as int] >= p + 1 by {
                    if c[k as int] == p {
                        assert(djb(lg[c[k as int]]) == removed@[k as int]);
                        assert(lg[p as int] == log@[p as int]@);
                    }
                }
            }
        }
        p = p + 1;
    }
    false
}

/// Checks `expected` against the log less one preimage of each image in
/// `removed` (each the full 32-bit hash of a dropped element): some choice
/// of one entry per image must leave a log that hashes to `expected`, and
/// `expected` must count the rest.
pub fn check_digest_from_removed_set(
    expected: &AdditiveMsetHash,
    elems: &Vec<Vec<u8>>,
    removed: &Vec<u32>,
) -> (r: bool)
    ensures
        r == (expected.count == elems@.len() - removed@.len() && exists|c: Seq<int>|
            #[trigger] choice_matches(
                views(elems@),
                removed@,
                c,
                le_nat(tagged_hash(0, expected.nonce@)),
                expected.hash_value(),
            )),
        r ==> explains(views(elems@), *expected),
{
    let mut imgs: Vec<u32> = Vec::new();
    let mut i: usize = 0;
    while i < elems.len()
        invariant
            i <= elems@.len(),
            imgs@.len() == i,
            forall|k: int| 0 <= k < i ==> #[trigger] imgs@[k] == djb(elems@[k]@),
        decreases elems@.len() - i,
    {
        imgs.push(elem_to_u32(elems[i].as_slice()));
        i = i + 1;
    }
    if removed.len() > elems.len() || (expected.count as usize) != elems.len() - removed.len() {
        proof {
            if removed@.len() > elems@.len() {
                if exists|c: Seq<int>|
                    #[trigger] choice_matches(
                        views(elems@),
                        removed@,
                        c,
                        le_nat(tagged_hash(0, expected.nonce@)),
                        expected.hash_value(),
                    ) {
                    let c = choose|c: Seq<int>|
                        #[trigger] choice_matches(
                            views(elems@),
                            removed@,
                            c,
                            le_nat(tagged_hash(0, expected.nonce@)),
                            expected.hash_value(),
                        );
                    let keep = choose|keep: Seq<bool>|
                        #[trigger] fits(
                            views(elems@),
                            picked(elems@.len(), c),
                            0,
                            removed@.len() as int,
                            le_nat(tagged_hash(0, expected.nonce@)),
                            expected.hash_value(),
                            keep,
                        );
                    assert(select(views(elems@).skip(0), keep).len() >= 0);
                }
            }
        }
        return false;
    }
    let start = AdditiveMsetHash::new_with_seed(expected.nonce);
    let mut chosen: Vec<usize> = Vec::new();
    let r = choose_drops(elems, &imgs, removed, &mut chosen, start, expected);
    proof {
        assert forall|c: Seq<int>| #[trigger] extends(c, Seq::<usize>::empty()) by {}
        if r {
            let c = choose|c: Seq<int>|
                #![trigger choice_matches(views(elems@), removed@, c, start.hash_value(), expected.hash_value())]
                extends(c, Seq::<usize>::empty()) && choice_matches(
                    views(elems@),
                    removed@,
                    c,
                    start.hash_value(),
                    expected.hash_value(),
                );
            let keep = choose|keep: Seq<bool>|
                #[trigger] fits(
                    views(elems@),
                    picked(elems@.len(), c),
                    0,
                    removed@.len() as int,
                    start.hash_value(),
                    expected.hash_value(),
                    keep,
                );
            assert(views(elems@).skip(0) =~= views(elems@));
        } else {
            if exists|c: Seq<int>|
                #[trigger] choice_matches(views(elems@), removed@, c, start.hash_value(), expected.hash_value()) {
                let c = choose|c: Seq<int>|
                    #[trigger] choice_matches(views(elems@), removed@, c, start.hash_value(), expected.hash_value());
                assert(extends(c, Seq::<usize>::empty()));
            }
        }
    }
    r
}

/// The naive accumulator: only the multiset hash. Validation tries every
/// sub-multiset of the log of the right size.
#[derive(Debug, PartialEq, Eq)]
pub struct NaiveAccumulator {
    pub digest: AdditiveMsetHash,
}

impl NaiveAccumulator {
    /// An empty accumulator under a random nonce.
    pub fn new() -> (r: Self)
        ensures
            r.digest.count == 0,
            r.digest.hash_value() == le_nat(tagged_hash(0, r.digest.nonce@)),
    {
        Self { digest: AdditiveMsetHash::new() }
    }

    /// Processes one element.
    pub fn process(&mut self, elem: &[u8])
        ensures
            final(self).digest.count == old(self).digest.count.wrapping_add(1),
            final(self).digest.nonce == old(self).digest.nonce,
            final(self).digest.hash_value() == (old(self).digest.hash_value() + le_nat(tagged_hash(1, elem@)))
                % hash_modulus(),
    {
        self.digest.add(elem);
    }

    /// Processes each element of `elems` in turn.
    pub fn process_batch(&mut self, elems: &Vec<Vec<u8>>)
        ensures
            final(self).digest.nonce == old(self).digest.nonce,
            final(self).digest.hash_value() == amh_extend(old(self).digest.hash_value(), views(elems@)),
    {
        let mut i: usize = 0;
        assert(views(elems@).skip(0) =~= views(elems@));
        while i < elems.len()
            invariant
                i <= elems@.len(),
                self.digest.nonce == old(self).digest.nonce,
                amh_extend(self.digest.hash_value(), views(elems@).skip(i as int)) == amh_extend(
                    old(self).digest.hash_value(),
                    views(elems@),
                ),
            decreases elems@.len() - i,
        {
            proof {
                assert(views(elems@).skip(i as int).drop_first() =~= views(elems@).skip(i + 1));
                assert(views(elems@).skip(i as int)[0] == elems@[i as int]@);
            }
            self.process(elems[i].as_slice());
            i = i + 1;
        }
        assert(views(elems@).skip(0) =~= views(elems@));
        assert(views(elems@).skip(elems@.len() as int).len() == 0);
    }

    /// The number of elements processed.
    pub fn total(&self) -> (r: usize)
        ensures
            r == self.digest.count,
    {
        self.digest.count as usize
    }

    /// Checks that the processed elements are a sub-multiset of `elems`.
    pub fn validate(&self, elems: &Vec<Vec<u8>>) -> (r: bool)
        ensures
            r == explains(views(elems@), self.digest),
    {
        let total = self.digest.count as usize;
        if elems.len() < total {
            proof {
                if explains(views(elems@), self.digest) {
                    let keep = choose|keep: Seq<bool>|
                        #![trigger select(views(elems@), keep)]
                        keep.len() == views(elems@).len() && select(views(elems@), keep).len() == self.digest.count
                            && amh_value(self.digest.nonce@, select(views(elems@), keep)) == self.digest.hash_value();
                    lemma_select_len(views(elems@), keep);
                }
            }
            return false;
        }
        let d = elems.len() - total;
        let mut cand: Vec<bool> = Vec::new();
        let mut k: usize = 0;
        while k < elems.len()
            invariant
                k <= elems@.len(),
                cand@.len() == k,
                forall|q: int| 0 <= q < k ==> #[trigger] cand@[q],
            decreases elems@.len() - k,
        {
            cand.push(true);
            k = k + 1;
        }
        let start = AdditiveMsetHash::new_with_seed(self.digest.nonce);
        let found = search(elems, &cand, &count_after(&cand), 0, d, start, &self.digest);
        proof {
            assert(views(elems@).skip(0) =~= views(elems@));
            if explains(views(elems@), self.digest) {
                let keep = choose|keep: Seq<bool>|
                    #![trigger select(views(elems@), keep)]
                    keep.len() == views(elems@).len() && select(views(elems@), keep).len() == self.digest.count
                        && amh_value(self.digest.nonce@, select(views(elems@), keep)) == self.digest.hash_value();
                assert(fits(views(elems@), cand@, 0, d as int, start.hash_value(), self.digest.hash_value(), keep));
            }
        }
        found
    }
}

/// `256^k`.
pub open spec fn pow256(k: nat) -> nat
    decreases k,
{
    if k == 0 {
        1
    } else {
        256 * pow256((k - 1) as nat)
    }
}

/// The nonce that a seed stands for: its eight bytes, most significant
/// first, then eight zeros.
pub open spec fn seed_nonce(seed: u64) -> Seq<u8> {
    Seq::new(16, |k: int| if k < 8 { ((seed as int / pow256((7 - k) as nat) as int) % 256) as u8 } else { 0u8 })
}

/// The nonce that a seed stands for.
pub fn nonce_from_seed(seed: u64) -> (r: AmhNonce)
    ensures
        r@ == seed_nonce(seed),
        forall|k: int| 0 <= k < 8 ==> #[trigger] r@[7 - k] as int == (seed as int / pow256(k as nat) as int) % 256,
        forall|k: int| 8 <= k < 16 ==> #[trigger] r@[k] == 0,
{
    let mut nonce: AmhNonce = [0u8; 16];
    let mut k: usize = 0;
    let mut rest = seed;
    assert(pow256(0) == 1);
    assert(seed as int / 1 == seed as int);
    while k < 8
        invariant
            k <= 8,
            nonce@.len() == 16,
            rest as int == seed as int / pow256(k as nat) as int,
            forall|j: int| 0 <= j < k ==> #[trigger] nonce@[7 - j] as int == (seed as int / pow256(j as nat) as int) % 256,
            forall|j: int| 8 <= j < 16 ==> #[trigger] nonce@[j] == 0,
        decreases 8 - k,
    {
        proof {
            assert(pow256(k as nat) > 0) by {
                lemma_pow256_pos(k as nat);
            }
            vstd::arithmetic::div_mod::lemma_div_denominator(seed as int, pow256(k as nat) as int, 256);
            assert(pow256((k + 1) as nat) == 256 * pow256(k as nat));
            assert(pow256(k as nat) * 256 == 256 * pow256(k as nat));
        }
        nonce.set(7 - k, (rest % 256) as u8);
        rest = rest / 256;
        k = k + 1;
    }
    assert forall|j: int| 0 <= j < 16 implies #[trigger] nonce@[j] == seed_nonce(seed)[j] by {
        if j < 8 {
            assert(nonce@[7 - (7 - j)] as int == (seed as int / pow256((7 - j) as nat) as int) % 256);
        }
    }
    assert(nonce@ =~= seed_nonce(seed));
    nonce
}

proof fn lemma_pow256_pos(k: nat)
    ensures
        pow256(k) > 0,
    decreases k,
{
    if k > 0 {
        lemma_pow256_pos((k - 1) as nat);
    }
}

} // verus!
