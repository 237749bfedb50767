//! The element a captured frame stands for.
use vstd::prelude::*;

verus! {

/// Bytes of the link-layer header that precede the element.
pub const LINK_HEADER_LEN: usize = 14;

/// The element of `frame`: `nbytes` bytes after the link-layer header, cut
/// where the frame ends and padded with zeros.
pub open spec fn element_of(frame: Seq<u8>, nbytes: nat) -> Seq<u8> {
    Seq::new(nbytes, |i: int| if 14 + i < frame.len() { frame[14 + i] } else { 0u8 })
}

/// The element a captured frame stands for.
pub fn packet_element(frame: &[u8], nbytes: usize) -> (r: Vec<u8>)
    requires
        frame@.len() >= LINK_HEADER_LEN,
    ensures
        r@ == element_of(frame@, nbytes as nat),
{
    let mut out: Vec<u8> = Vec::new();
    let mut i: usize = 0;
    while i < nbytes
        invariant
            i <= nbytes,
            frame@.len() >= LINK_HEADER_LEN,
            out@ == element_of(frame@, nbytes as nat).take(i as int),
        decreases nbytes - i,
    {
        let b = if i < frame.len() - LINK_HEADER_LEN { frame[LINK_HEADER_LEN + i] } else { 0u8 };
        out.push(b);
        i = i + 1;
        assert(out@ =~= element_of(frame@, nbytes as nat).take(i as int));
    }
    assert(element_of(frame@, nbytes as nat).take(nbytes as int) =~= element_of(frame@, nbytes as nat));
    out
}

} // verus!
