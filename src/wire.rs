//! Little-endian integers in byte buffers.
use vstd::prelude::*;

verus! {

/// The little-endian `u32` at `off` in `b`.
pub open spec fn le32(b: Seq<u8>, off: int) -> int {
    b[off] + 256 * b[off + 1] + 65536 * b[off + 2] + 16777216 * b[off + 3]
}

/// Writes `v` little-endian at `off`, leaving the other bytes alone.
pub fn write_u32_le(buf: &mut [u8], off: usize, v: u32)
    requires
        off + 4 <= old(buf)@.len(),
    ensures
        final(buf)@.len() == old(buf)@.len(),
        le32(final(buf)@, off as int) == v,
        forall|i: int|
            0 <= i < old(buf)@.len() && !(off <= i < off + 4) ==> #[trigger] final(buf)@[i]
                == old(buf)@[i],
{
    let q1 = v / 256;
    let q2 = q1 / 256;
    let b0 = (v % 256) as u8;
    let b1 = (q1 % 256) as u8;
    let b2 = (q2 % 256) as u8;
    let b3 = (q2 / 256) as u8;
    proof {
        vstd::arithmetic::div_mod::lemma_fundamental_div_mod(v as int, 256);
        vstd::arithmetic::div_mod::lemma_fundamental_div_mod(q1 as int, 256);
        vstd::arithmetic::div_mod::lemma_fundamental_div_mod(q2 as int, 256);
    }
    buf[off] = b0;
    buf[off + 1] = b1;
    buf[off + 2] = b2;
    buf[off + 3] = b3;
}

/// Reads the little-endian `u32` at `off`.
pub fn read_u32_le(buf: &[u8], off: usize) -> (r: u32)
    requires
        off + 4 <= buf@.len(),
    ensures
        r == le32(buf@, off as int),
{
    let b0 = buf[off] as u32;
    let b1 = buf[off + 1] as u32;
    let b2 = buf[off + 2] as u32;
    let b3 = buf[off + 3] as u32;
    b0 + 256 * b1 + 65536 * b2 + 16777216 * b3
}

/// The four little-endian bytes of `v`.
pub open spec fn le_bytes(v: u32) -> Seq<u8> {
    seq![
        (v % 256) as u8,
        ((v / 256) % 256) as u8,
        ((v / 65536) % 256) as u8,
        (v / 16777216) as u8,
    ]
}

/// Reading back the bytes of `v` gives `v`.
pub proof fn lemma_le_bytes(v: u32, b: Seq<u8>, off: int)
    requires
        0 <= off,
        off + 4 <= b.len(),
        b.subrange(off, off + 4) == le_bytes(v),
    ensures
        le32(b, off) == v,
{
    assert(b[off] == le_bytes(v)[0]);
    assert(b[off + 1] == le_bytes(v)[1]);
    assert(b[off + 2] == le_bytes(v)[2]);
    assert(b[off + 3] == le_bytes(v)[3]);
    let q1 = v / 256;
    let q2 = q1 / 256;
    vstd::arithmetic::div_mod::lemma_fundamental_div_mod(v as int, 256);
    vstd::arithmetic::div_mod::lemma_fundamental_div_mod(q1 as int, 256);
    vstd::arithmetic::div_mod::lemma_fundamental_div_mod(q2 as int, 256);
    vstd::arithmetic::div_mod::lemma_div_denominator(v as int, 256, 256);
    vstd::arithmetic::div_mod::lemma_div_denominator(v as int, 65536, 256);
}

/// Appends the little-endian bytes of `v`.
pub fn push_u32_le(out: &mut Vec<u8>, v: u32)
    ensures
        final(out)@ == old(out)@ + le_bytes(v),
{
    out.push((v % 256) as u8);
    out.push(((v / 256) % 256) as u8);
    out.push(((v / 65536) % 256) as u8);
    out.push((v / 16777216) as u8);
    assert(out@ =~= old(out)@ + le_bytes(v));
}

} // verus!
