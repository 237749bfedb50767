//! Arithmetic modulo `18446744073709551557`, the largest prime below `2^64`: the field
//! of the 64-bit power-sum quACK.
use vstd::prelude::*;
use crate::field::{gcd, lemma_gcd_divides};
use vstd::arithmetic::div_mod::{
    lemma_fundamental_div_mod, lemma_mod_multiples_basic, lemma_mul_mod_noop_right,
    lemma_small_mod,
};

verus! {

/// The field modulus.
pub const PRIME_U64: u64 = 18446744073709551557;

/// The field modulus as a mathematical integer.
pub open spec fn modulus() -> int {
    18446744073709551557
}

/// Reduction into the canonical range `[0, modulus())`.
pub open spec fn fmod(x: int) -> int {
    x % modulus()
}

/// `b` has a multiplicative inverse in the field.
pub open spec fn is_unit(b: int) -> bool {
    exists|u: int| #[trigger] fmod(u * b) == 1
}

/// A value whose greatest common divisor with the modulus is not one has no
/// inverse.
proof fn lemma_not_unit(b: nat)
    requires
        gcd(b, modulus() as nat) != 1,
    ensures
        !is_unit(b as int),
{
    let g = gcd(b, modulus() as nat) as int;
    lemma_gcd_divides(b, modulus() as nat);
    if is_unit(b as int) {
        let u = choose|u: int| #[trigger] fmod(u * b) == 1;
        let k1 = choose|k: int| #[trigger] (k * g) == b as int;
        let k2 = choose|k: int| #[trigger] (k * g) == modulus();
        lemma_fundamental_div_mod(u * b, modulus());
        let m = (u * b) / modulus();
        let c = u * k1 - m * k2;
        assert(u * b == u * k1 * g) by (nonlinear_arith)
            requires
                k1 * g == b as int,
        ;
        assert(modulus() * m == m * k2 * g) by (nonlinear_arith)
            requires
                k2 * g == modulus(),
        ;
        assert(c * g == u * k1 * g - m * k2 * g) by (nonlinear_arith)
            requires
                c == u * k1 - m * k2,
        ;
        assert(c * g == 1);
        assert(g == 1) by (nonlinear_arith)
            requires
                c * g == 1,
                g >= 0,
        ;
    }
}

/// One step of the extended Euclidean algorithm keeps the Bezout congruence.
proof fn lemma_bezout_step(ox: int, x: int, q: int, b: int, or: int, r: int, t: int, nx: int)
    requires
        fmod(ox * b - or) == 0,
        fmod(x * b - r) == 0,
        t == fmod(fmod(q) * x),
        nx == fmod(ox - t),
    ensures
        fmod(nx * b - (or - q * r)) == 0,
{
    let p = modulus();
    lemma_fundamental_div_mod(ox * b - or, p);
    lemma_fundamental_div_mod(x * b - r, p);
    lemma_fundamental_div_mod(q, p);
    lemma_fundamental_div_mod(fmod(q) * x, p);
    lemma_fundamental_div_mod(ox - t, p);
    let k1 = (ox * b - or) / p;
    let k2 = (x * b - r) / p;
    let c1 = q / p;
    let c2 = (fmod(q) * x) / p;
    let c3 = (ox - t) / p;
    let fq = fmod(q);
    assert(nx * b == ox * b - t * b - (c3 * b) * p) by (nonlinear_arith)
        requires
            ox - t == p * c3 + nx,
    ;
    assert(t * b == fq * (x * b) - (c2 * b) * p) by (nonlinear_arith)
        requires
            fq * x == p * c2 + t,
    ;
    assert(fq * (x * b) == q * (x * b) - (c1 * (x * b)) * p) by (nonlinear_arith)
        requires
            q == p * c1 + fq,
    ;
    assert(q * (x * b) == q * r + (q * k2) * p) by (nonlinear_arith)
        requires
            x * b - r == p * k2,
    ;
    let k = k1 - q * k2 + c1 * (x * b) + c2 * b - c3 * b;
    assert(nx * b - (or - q * r) == k1 * p - (q * k2) * p + (c1 * (x * b)) * p + (c2 * b) * p - (c3 * b) * p);
    assert(k1 * p - (q * k2) * p + (c1 * (x * b)) * p + (c2 * b) * p - (c3 * b) * p == k * p) by (nonlinear_arith)
        requires
            k == k1 - q * k2 + c1 * (x * b) + c2 * b - c3 * b,
    ;
    lemma_mod_multiples_basic(k, p);
}

/// The inverse of `b` in the field, or zero where there is none.
pub open spec fn inv(b: int) -> int {
    if is_unit(b) {
        choose|u: int| 0 <= u < modulus() && #[trigger] fmod(u * b) == 1
    } else {
        0
    }
}

/// An inverse is unique among the canonical representatives.
pub proof fn lemma_inverse_unique(b: int, u: int)
    requires
        0 <= u < modulus(),
        fmod(u * b) == 1,
    ensures
        is_unit(b),
        inv(b) == u,
{
    let p = modulus();
    assert(is_unit(b));
    let w = fmod(u * b);
    assert(0 <= u < p && fmod(u * b) == 1);
    let v = choose|v: int| 0 <= v < p && #[trigger] fmod(v * b) == 1;
    // u == u * (v * b) == v * (u * b) == v, all modulo p
    vstd::arithmetic::div_mod::lemma_mul_mod_noop_right(u, v * b, p);
    vstd::arithmetic::div_mod::lemma_mul_mod_noop_right(v, u * b, p);
    assert(u * (v * b) == v * (u * b)) by (nonlinear_arith);
    lemma_small_mod(u as nat, p as nat);
    lemma_small_mod(v as nat, p as nat);
    assert(u * 1 == u);
    assert(v * 1 == v);
}

/// `(a + b) mod p`.
pub fn add_and_mod(a: u64, b: u64) -> (r: u64)
    ensures
        r as int == fmod(a + b),
{
    (((a as u128) + (b as u128)) % (PRIME_U64 as u128)) as u64
}

/// `(a * b) mod p`.
pub fn mul_and_mod(a: u64, b: u64) -> (r: u64)
    ensures
        r as int == fmod(a * b),
{
    assert((a as u128) * (b as u128) <= u128::MAX) by (nonlinear_arith)
        requires
            a <= u64::MAX,
            b <= u64::MAX,
    ;
    (((a as u128) * (b as u128)) % (PRIME_U64 as u128)) as u64
}

/// `(a - b) mod p`, for `a` and `b` anywhere in `u64`.
pub fn sub_and_mod(a: u64, b: u64) -> (r: u64)
    ensures
        r as int == fmod(a - b),
{
    let p = PRIME_U64 as u128;
    let bm = (b as u128) % p;
    proof {
        lemma_fundamental_div_mod(b as int, p as int);
        lemma_fundamental_div_mod(a - b, p as int);
        lemma_fundamental_div_mod((a as int) + p - bm, p as int);
        let k = (b as int) / (p as int);
        assert((a as int) + p - bm == (a - b) + (k + 1) * p) by (nonlinear_arith)
            requires
                b as int == p * k + bm,
        ;
        vstd::arithmetic::div_mod::lemma_mod_multiples_vanish(k + 1, a - b, p as int);
        assert((p as int) * (k + 1) == (k + 1) * (p as int)) by (nonlinear_arith);
    }
    (((a as u128) + p - bm) % p) as u64
}

/// The inverse of `b` in the field, when there is one.
///
/// Runs the extended Euclidean algorithm on `b mod p` and `p`, keeping the
/// Bezout coefficient of `b` reduced modulo `p`.
pub fn inverse(b: u64) -> (r: Option<u64>)
    ensures
        r.is_some() <==> is_unit(b as int),
        r matches Some(u) ==> u < PRIME_U64 && fmod(u * b) == 1,
{
    let p = PRIME_U64 as u128;
    let bm = (b as u128) % p;
    let mut old_r: u128 = bm;
    let mut r: u128 = p;
    let mut old_x: u64 = 1;
    let mut x: u64 = 0;
    proof {
        lemma_small_mod(1, p as nat);
        lemma_small_mod(0, p as nat);
        lemma_small_mod(bm as nat, p as nat);
        assert(fmod(1 * bm - bm) == 0);
        assert(fmod(0 * bm - p) == 0) by {
            lemma_mod_multiples_basic(-1, p as int);
        }
    }
    while r != 0
        invariant
            p == modulus(),
            bm < p,
            old_r <= p,
            r <= p,
            old_x < p,
            x < p,
            gcd(old_r as nat, r as nat) == gcd(bm as nat, p as nat),
            fmod(old_x * bm - old_r) == 0,
            fmod(x * bm - r) == 0,
        decreases r,
    {
        let q = old_r / r;
        let rem = old_r % r;
        let t = mul_and_mod((q % p) as u64, x);
        let nx = sub_and_mod(old_x, t);
        proof {
            lemma_fundamental_div_mod(old_r as int, r as int);
            assert(old_r as int == (r as int) * (q as int) + (rem as int));
            assert((r as int) * (q as int) == (q as int) * (r as int)) by (nonlinear_arith);
            lemma_bezout_step(old_x as int, x as int, q as int, bm as int, old_r as int, r as int, t as int, nx as int);
        }
        old_r = r;
        r = rem;
        old_x = x;
        x = nx;
    }
    if old_r == 1 {
        proof {
            lemma_fundamental_div_mod(old_x * bm - 1, p as int);
            lemma_fundamental_div_mod(old_x * bm, p as int);
            lemma_small_mod(1, p as nat);
            let k = (old_x * bm - 1) / (p as int);
            vstd::arithmetic::div_mod::lemma_mod_multiples_vanish(k, 1, p as int);
            lemma_mul_mod_noop_right(old_x as int, b as int, p as int);
            assert(fmod(old_x * b) == 1);
        }
        Some(old_x)
    } else {
        proof {
            assert(gcd(old_r as nat, 0) == old_r);
            lemma_not_unit(bm as nat);
            if is_unit(b as int) {
                let u = choose|u: int| #[trigger] fmod(u * b) == 1;
                lemma_mul_mod_noop_right(u, b as int, p as int);
                assert(fmod(u * bm) == 1);
            }
        }
        None
    }
}

/// `a / b` in the field: the value `r` with `r * b == a`, where `b` has an
/// inverse; zero where it has none.
pub fn div_and_mod(a: u64, b: u64) -> (r: u64)
    ensures
        is_unit(b as int) ==> r < PRIME_U64 && fmod(r * b) == fmod(a as int),
        is_unit(b as int) ==> r as int == fmod(a * inv(b as int)),
        !is_unit(b as int) ==> r == 0,
{
    match inverse(b) {
        Some(u) => {
            let r = mul_and_mod(a, u);
            proof {
                let p = modulus();
                lemma_inverse_unique(b as int, u as int);
                vstd::arithmetic::div_mod::lemma_mul_mod_noop_left(a * u, b as int, p);
                vstd::arithmetic::div_mod::lemma_mul_mod_noop_right(a as int, u * b, p);
                assert((a * u) * b == a * (u * b)) by (nonlinear_arith);
                assert(a * 1 == a);
            }
            r
        },
        None => 0,
    }
}

} // verus!
