//! Order-independent digests of multisets: the XOR digest and the additive
//! multiset hash.
use vstd::prelude::*;
use vstd::arithmetic::power2::pow2;
use num_bigint::BigUint;
use rand::Rng;
use sha3::Digest;
use sha3::Sha3_256;

verus! {

/// Bytes in a multiset hash.
pub const NBYTES_HASH: usize = 32;

/// Bytes in a multiset hash's nonce.
pub const NBYTES_NONCE: usize = 16;

/// A multiset hash value.
pub type AmhHash = [u8; 32];

/// A multiset hash's nonce.
pub type AmhNonce = [u8; 16];

/// The SHA3-256 digest of `data`.
pub uninterp spec fn sha3_256_of(data: Seq<u8>) -> Seq<u8>;

/// The number whose little-endian bytes are `s`.
pub open spec fn le_nat(s: Seq<u8>) -> nat
    decreases s.len(),
{
    if s.len() == 0 {
        0
    } else {
        (s[0] + 256 * le_nat(s.drop_first())) as nat
    }
}

/// `2^256`.
pub open spec fn hash_modulus() -> nat {
    pow2(256)
}

/// Relies on sha3's `Sha3_256::digest`, which returns the 32-byte SHA3-256
/// digest of its input.
#[verifier::external_body]
fn sha3_256(data: &[u8]) -> (r: AmhHash)
    ensures
        r@ == sha3_256_of(data@),
{
    let out = Sha3_256::digest(data);
    let mut hash: AmhHash = [0u8; 32];
    hash.copy_from_slice(&out[..]);
    hash
}

/// Relies on num-bigint's `BigUint::from_bytes_le`, `+` and `to_bytes_le`:
/// the sum of two little-endian numbers, cut to 32 bytes, is their sum
/// modulo `2^256`.
#[verifier::external_body]
fn add_hashes(a: &AmhHash, b: &AmhHash) -> (r: AmhHash)
    ensures
        le_nat(r@) == (le_nat(a@) + le_nat(b@)) % hash_modulus(),
{
    let c = (BigUint::from_bytes_le(a) + BigUint::from_bytes_le(b)).to_bytes_le();
    let mut hash: AmhHash = [0u8; 32];
    let len = std::cmp::min(32, c.len());
    hash[..len].copy_from_slice(&c[..len]);
    hash
}

/// Relies on rand's `thread_rng`, a generator seeded by the system: nothing
/// is promised of the bytes.
#[verifier::external_body]
fn random_nonce() -> (r: AmhNonce) {
    rand::thread_rng().gen()
}

/// Distinct byte strings of one length are distinct numbers.
pub proof fn lemma_le_nat_injective(s: Seq<u8>, t: Seq<u8>)
    requires
        s.len() == t.len(),
        le_nat(s) == le_nat(t),
    ensures
        s == t,
    decreases s.len(),
{
    if s.len() > 0 {
        let x = le_nat(s.drop_first()) as int;
        let y = le_nat(t.drop_first()) as int;
        vstd::arithmetic::div_mod::lemma_fundamental_div_mod_converse(le_nat(s) as int, 256, x, s[0] as int);
        vstd::arithmetic::div_mod::lemma_fundamental_div_mod_converse(le_nat(t) as int, 256, y, t[0] as int);
        lemma_le_nat_injective(s.drop_first(), t.drop_first());
        assert(s =~= seq![s[0]] + s.drop_first());
        assert(t =~= seq![t[0]] + t.drop_first());
    }
}

/// `SHA3-256(bit || val)`.
pub open spec fn tagged_hash(bit: u8, val: Seq<u8>) -> Seq<u8> {
    sha3_256_of(seq![bit] + val)
}

/// The hash of `val` under the tag `bit`.
pub fn hash_fn(bit: u8, val: &[u8]) -> (r: AmhHash)
    ensures
        r@ == tagged_hash(bit, val@),
{
    let mut data: Vec<u8> = Vec::new();
    data.push(bit);
    let mut i: usize = 0;
    while i < val.len()
        invariant
            i <= val@.len(),
            data@ == seq![bit] + val@.take(i as int),
        decreases val@.len() - i,
    {
        data.push(val[i]);
        i = i + 1;
        assert(data@ =~= seq![bit] + val@.take(i as int));
    }
    assert(val@.take(val@.len() as int) =~= val@);
    sha3_256(data.as_slice())
}

fn same_hash(a: &AmhHash, b: &AmhHash) -> (r: bool)
    ensures
        r == (a@ == b@),
{
    let mut i: usize = 0;
    while i < 32
        invariant
            i <= 32,
            forall|k: int| 0 <= k < i ==> a@[k] == b@[k],
        decreases 32 - i,
    {
        if a[i] != b[i] {
            return false;
        }
        i = i + 1;
    }
    assert(a@ =~= b@);
    true
}

/// `v` with the elements of `list` added, front first.
pub open spec fn amh_extend(v: nat, list: Seq<Seq<u8>>) -> nat
    decreases list.len(),
{
    if list.len() == 0 {
        v
    } else {
        amh_extend((v + le_nat(tagged_hash(1, list[0]))) % hash_modulus(), list.drop_first())
    }
}

/// Adding `a` then `b` is adding `a + b`.
pub proof fn lemma_extend_concat(v: nat, a: Seq<Seq<u8>>, b: Seq<Seq<u8>>)
    ensures
        amh_extend(v, a + b) == amh_extend(amh_extend(v, a), b),
    decreases a.len(),
{
    if a.len() == 0 {
        assert(a + b =~= b);
    } else {
        vstd::arithmetic::power2::lemma_pow2_pos(256);
        let w = (v + le_nat(tagged_hash(1, a[0]))) % hash_modulus();
        assert((a + b).drop_first() =~= a.drop_first() + b);
        assert((a + b)[0] == a[0]);
        assert((a + b).len() > 0);
        assert(amh_extend(v, a + b) == amh_extend(w, (a + b).drop_first()));
        assert(amh_extend(v, a) == amh_extend(w, a.drop_first()));
        lemma_extend_concat(w, a.drop_first(), b);
    }
}

/// Adding two elements in either order gives the same hash value.
pub proof fn lemma_amh_add_commutes(v: nat, x: Seq<u8>, y: Seq<u8>)
    ensures
        amh_extend(v, seq![x, y]) == amh_extend(v, seq![y, x]),
{
    vstd::arithmetic::power2::lemma_pow2_pos(256);
    let m = hash_modulus() as int;
    let hx = le_nat(tagged_hash(1, x)) as int;
    let hy = le_nat(tagged_hash(1, y)) as int;
    assert(seq![x, y].drop_first() =~= seq![y]);
    assert(seq![y, x].drop_first() =~= seq![x]);
    assert(seq![y].drop_first() =~= Seq::<Seq<u8>>::empty());
    assert(seq![x].drop_first() =~= Seq::<Seq<u8>>::empty());
    let a = (v + le_nat(tagged_hash(1, x))) % hash_modulus();
    let b = (v + le_nat(tagged_hash(1, y))) % hash_modulus();
    assert(amh_extend(v, seq![x, y]) == amh_extend(a, seq![y]));
    assert(amh_extend(a, seq![y]) == amh_extend((a + le_nat(tagged_hash(1, y))) % hash_modulus(), seq![y].drop_first()));
    assert(amh_extend(v, seq![y, x]) == amh_extend(b, seq![x]));
    assert(amh_extend(b, seq![x]) == amh_extend((b + le_nat(tagged_hash(1, x))) % hash_modulus(), seq![x].drop_first()));
    vstd::arithmetic::div_mod::lemma_add_mod_noop_right(hy, v + hx, m);
    vstd::arithmetic::div_mod::lemma_add_mod_noop_right(hx, v + hy, m);
    assert(v + hx + hy == v + hy + hx);
}

/// The hash value of the multiset `list` under `nonce`.
pub open spec fn amh_value(nonce: Seq<u8>, list: Seq<Seq<u8>>) -> nat {
    amh_extend(le_nat(tagged_hash(0, nonce)), list)
}

/// Incremental additive multiset hash: a nonce-salted sum, modulo `2^256`,
/// of the SHA3-256 hashes of the elements.
#[derive(Clone, Copy, Debug, PartialEq, Eq)]
pub struct AdditiveMsetHash {
    pub hash: AmhHash,
    pub count: u32,
    pub nonce: AmhNonce,
}

impl AdditiveMsetHash {
    /// The hash as a number below `2^256`.
    pub open spec fn hash_value(&self) -> nat {
        le_nat(self.hash@)
    }

    /// The nonce.
    pub open spec fn spec_nonce(&self) -> Seq<u8> {
        self.nonce@
    }

    /// The digest is equivalent to `other`: it counts as many elements, and
    /// the hashes agree once each is shifted by the other's nonce.
    pub open spec fn equivalent(&self, other: &Self) -> bool {
        &&& self.count == other.count
        &&& (self.hash_value() + le_nat(tagged_hash(0, other.spec_nonce()))) % hash_modulus() == (
        other.hash_value() + le_nat(tagged_hash(0, self.spec_nonce()))) % hash_modulus()
    }

    /// The digest of the empty multiset under `nonce`.
    pub fn new_with_seed(nonce: AmhNonce) -> (r: Self)
        ensures
            r.count == 0,
            r.spec_nonce() == nonce@,
            r.hash@ == tagged_hash(0, nonce@),
            r.hash_value() == le_nat(tagged_hash(0, nonce@)),
    {
        let hash = hash_fn(0, nonce.as_slice());
        Self { hash, count: 0, nonce }
    }

    /// The digest of the empty multiset under a random nonce.
    pub fn new() -> (r: Self)
        ensures
            r.count == 0,
            r.hash@ == tagged_hash(0, r.spec_nonce()),
            r.hash_value() == le_nat(tagged_hash(0, r.spec_nonce())),
    {
        Self::new_with_seed(random_nonce())
    }

    /// Adds an element.
    pub fn add(&mut self, elem: &[u8])
        ensures
            final(self).count == old(self).count.wrapping_add(1),
            final(self).spec_nonce() == old(self).spec_nonce(),
            final(self).hash_value() == (old(self).hash_value() + le_nat(tagged_hash(1, elem@))) % hash_modulus(),
    {
        let h = hash_fn(1, elem);
        self.hash = add_hashes(&self.hash, &h);
        self.count = self.count.wrapping_add(1);
    }

    /// Adds every element of `elems`.
    pub fn add_all(&mut self, elems: &Vec<Vec<u8>>)
        ensures
            final(self).spec_nonce() == old(self).spec_nonce(),
            final(self).count == (old(self).count + elems@.len()) % 0x1_0000_0000,
            final(self).hash_value() == amh_extend(old(self).hash_value(), elems@.map_values(|e: Vec<u8>| e@)),
    {
        let ghost l = elems@.map_values(|e: Vec<u8>| e@);
        let mut i: usize = 0;
        assert(l.skip(0) =~= l);
        while i < elems.len()
            invariant
                i <= elems@.len(),
                l == elems@.map_values(|e: Vec<u8>| e@),
                self.spec_nonce() == old(self).spec_nonce(),
                self.count == (old(self).count + i) % 0x1_0000_0000,
                amh_extend(self.hash_value(), l.skip(i as int)) == amh_extend(old(self).hash_value(), l),
            decreases elems@.len() - i,
        {
            proof {
                assert(l.skip(i as int).drop_first() =~= l.skip(i + 1));
                assert(l.skip(i as int)[0] == elems@[i as int]@);
            }
            self.add(elems[i].as_slice());
            i = i + 1;
        }
        assert(l.skip(elems@.len() as int).len() == 0);
    }

    /// The hash value.
    pub fn value(&self) -> (r: &AmhHash)
        ensures
            le_nat(r@) == self.hash_value(),
    {
        &self.hash
    }

    /// Checks that two digests hold the same multiset, whatever their
    /// nonces.
    pub fn equals(&self, other: &Self) -> (r: bool)
        ensures
            r == self.equivalent(other),
    {
        if self.count != other.count {
            return false;
        }
        let h_other = hash_fn(0, other.nonce.as_slice());
        let h_self = hash_fn(0, self.nonce.as_slice());
        let lhs = add_hashes(&self.hash, &h_other);
        let rhs = add_hashes(&other.hash, &h_self);
        let r = same_hash(&lhs, &rhs);
        proof {
            if le_nat(lhs@) == le_nat(rhs@) {
                lemma_le_nat_injective(lhs@, rhs@);
            }
        }
        r
    }
}

/// Digest that is the XOR of a collection of 32-bit numbers. It cannot tell
/// an element apart from three copies of it.
#[derive(PartialEq, Eq, Structural, Debug, Clone, Copy)]
pub struct XorDigest {
    hash: u32,
}

/// The XOR of the elements of `s`.
pub open spec fn xor_all(s: Seq<u32>) -> u32
    decreases s.len(),
{
    if s.len() == 0 {
        0
    } else {
        xor_all(s.drop_last()) ^ s.last()
    }
}

impl XorDigest {
    /// The digest value.
    pub closed spec fn view(&self) -> u32 {
        self.hash
    }

    /// The digest of nothing.
    pub fn new() -> (r: Self)
        ensures
            r@ == 0,
    {
        Self { hash: 0 }
    }

    /// Adds an element.
    pub fn add(&mut self, elem: u32)
        ensures
            final(self)@ == old(self)@ ^ elem,
    {
        self.hash = self.hash ^ elem;
    }

    /// Adds every element of `elems`.
    pub fn add_all(&mut self, elems: &Vec<u32>)
        ensures
            final(self)@ == old(self)@ ^ xor_all(elems@),
    {
        let mut i: usize = 0;
        proof {
            let o = old(self)@;
            assert(elems@.take(0) =~= Seq::<u32>::empty());
            assert(o ^ 0u32 == o) by (bit_vector);
        }
        while i < elems.len()
            invariant
                i <= elems@.len(),
                self@ == old(self)@ ^ xor_all(elems@.take(i as int)),
            decreases elems@.len() - i,
        {
            let ghost before = self@;
            self.add(elems[i]);
            proof {
                let e = elems@[i as int];
                let x = xor_all(elems@.take(i as int));
                let o = old(self)@;
                assert(elems@.take(i + 1).drop_last() =~= elems@.take(i as int));
                assert((o ^ x) ^ e == o ^ (x ^ e)) by (bit_vector);
            }
            i = i + 1;
        }
        assert(elems@.take(elems@.len() as int) =~= elems@);
    }

    /// The digest value.
    pub fn value(&self) -> (r: u32)
        ensures
            r == self@,
    {
        self.hash
    }
}

/// The XOR digest does not depend on the order of the elements added.
pub proof fn lemma_xor_order(s: Seq<u32>, i: int, j: int)
    requires
        0 <= i < s.len(),
        0 <= j < s.len(),
    ensures
        xor_all(s.update(i, s[j]).update(j, s[i])) == xor_all(s),
{
    lemma_xor_split(s, i, j);
}

proof fn lemma_xor_split(s: Seq<u32>, i: int, j: int)
    requires
        0 <= i < s.len(),
        0 <= j < s.len(),
    ensures
        xor_all(s.update(i, s[j]).update(j, s[i])) == xor_all(s),
    decreases s.len(),
{
    let t = s.update(i, s[j]).update(j, s[i]);
    let n = s.len() - 1;
    if i == j {
        assert(t =~= s);
    } else if i < n && j < n {
        lemma_xor_split(s.drop_last(), i, j);
        assert(t.drop_last() =~= s.drop_last().update(i, s[j]).update(j, s[i]));
    } else {
        // one of the two swapped positions is the last
        let k = if i == n { j } else { i };
        let a = s[k];
        let b = s[n];
        lemma_xor_replace(s.drop_last(), k, b);
        assert(t.drop_last() =~= s.drop_last().update(k, b));
        let x = xor_all(s.drop_last());
        let y = xor_all(t.drop_last());
        assert(y == (x ^ a) ^ b);
        assert(((x ^ a) ^ b) ^ a == x ^ b) by (bit_vector);
    }
}

/// Replacing one element changes the XOR by the old and the new element.
proof fn lemma_xor_replace(s: Seq<u32>, k: int, v: u32)
    requires
        0 <= k < s.len(),
    ensures
        xor_all(s.update(k, v)) == (xor_all(s) ^ s[k]) ^ v,
    decreases s.len(),
{
    let n = s.len() - 1;
    let t = s.update(k, v);
    let x = xor_all(s.drop_last());
    if k == n {
        assert(t.drop_last() =~= s.drop_last());
        let a = s[k];
        assert((x ^ v) == ((x ^ a) ^ a) ^ v) by (bit_vector);
    } else {
        lemma_xor_replace(s.drop_last(), k, v);
        assert(t.drop_last() =~= s.drop_last().update(k, v));
        let a = s[k];
        let l = s.last();
        assert(((x ^ a) ^ v) ^ l == ((x ^ l) ^ a) ^ v) by (bit_vector);
    }
}

} // verus!
