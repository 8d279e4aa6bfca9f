//! Small verified helpers for moving bytes between slices, arrays and
//! vectors.

use vstd::prelude::*;

verus! {

/// Append every byte of `src` to the end of `dst`.
pub fn push_bytes(dst: &mut Vec<u8>, src: &[u8])
    ensures
        final(dst)@ == old(dst)@ + src@,
{
    let mut i: usize = 0;
    while i < src.len()
        invariant
            i <= src@.len(),
            dst@ == old(dst)@ + src@.subrange(0, i as int),
        decreases src@.len() - i,
    {
        let b = src[i];
        dst.push(b);
        proof {
            assert(src@.subrange(0, i as int).push(src@[i as int]) =~= src@.subrange(
                0,
                i + 1 as int,
            ));
        }
        i = i + 1;
    }
    proof {
        assert(src@.subrange(0, src@.len() as int) =~= src@);
    }
}

/// Overwrite `dst[offset .. offset + src.len()]` with the bytes of `src`,
/// leaving the rest of `dst` as it was.
pub fn write_bytes(dst: &mut Vec<u8>, offset: usize, src: &[u8])
    requires
        offset + src@.len() <= old(dst)@.len(),
    ensures
        final(dst)@.len() == old(dst)@.len(),
        final(dst)@ == old(dst)@.subrange(0, offset as int) + src@ + old(dst)@.skip(
            offset + src@.len(),
        ),
{
    let dst_len = dst.len();
    let mut i: usize = 0;
    while i < src.len()
        invariant
            i <= src@.len(),
            offset + src@.len() <= dst_len,
            dst@.len() == dst_len,
            dst@.len() == old(dst)@.len(),
            forall|j: int| 0 <= j < i ==> dst@[offset + j] == src@[j],
            forall|j: int|
                0 <= j < dst@.len() && !(offset <= j < offset + i) ==> dst@[j] == old(dst)@[j],
        decreases src@.len() - i,
    {
        let b = src[i];
        dst[offset + i] = b;
        i = i + 1;
    }
    proof {
        assert(dst@ =~= old(dst)@.subrange(0, offset as int) + src@ + old(dst)@.skip(
            offset + src@.len(),
        ));
    }
}

/// Copy the 32 bytes of `src` starting at `offset` into a fresh array.
pub fn read_bytes32(src: &[u8], offset: usize) -> (r: [u8; 32])
    requires
        offset + 32 <= src@.len(),
    ensures
        r@ == src@.subrange(offset as int, offset + 32),
{
    let src_len = src.len();
    let mut out: [u8; 32] = [0u8; 32];
    let mut i: usize = 0;
    while i < 32
        invariant
            i <= 32,
            offset + 32 <= src_len,
            src@.len() == src_len,
            out@.len() == 32,
            forall|j: int| 0 <= j < i ==> out@[j] == src@[offset + j],
        decreases 32 - i,
    {
        out[i] = src[offset + i];
        i = i + 1;
    }
    proof {
        assert(out@ =~= src@.subrange(offset as int, offset + 32));
    }
    out
}

/// Compare two 32-byte digests for equality.
pub fn bytes32_eq(a: &[u8; 32], b: &[u8; 32]) -> (r: bool)
    ensures
        r == (a@ == b@),
{
    let mut i: usize = 0;
    while i < 32
        invariant
            i <= 32,
            forall|j: int| 0 <= j < i ==> a@[j] == b@[j],
        decreases 32 - i,
    {
        if a[i] != b[i] {
            return false;
        }
        i = i + 1;
    }
    proof {
        assert(a@ =~= b@);
    }
    true
}

} // verus!
