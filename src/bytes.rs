//! Big-endian integer encodings and byte-sequence helpers.

use vstd::prelude::*;

verus! {

/// Eight big-endian bytes of `v`.
pub open spec fn be_u64(v: u64) -> Seq<u8> {
    Seq::new(8, |k: int| ((v >> ((56 - 8 * k) as u64)) & 0xff) as u8)
}

/// Four big-endian bytes of `v`.
pub open spec fn be_u32(v: u32) -> Seq<u8> {
    Seq::new(4, |k: int| ((v >> ((24 - 8 * k) as u32)) & 0xff) as u8)
}

/// Appends `src` to `out`.
pub fn append_bytes(out: &mut Vec<u8>, src: &[u8])
    ensures
        final(out)@ == old(out)@ + src@,
{
    let ghost start = out@;
    let mut i: usize = 0;
    while i < src.len()
        invariant
            i <= src@.len(),
            out@ == start + src@.subrange(0, i as int),
        decreases src@.len() - i,
    {
        out.push(src[i]);
        i += 1;
        assert(out@ =~= start + src@.subrange(0, i as int));
    }
    assert(src@.subrange(0, src@.len() as int) =~= src@);
}

/// Appends the eight big-endian bytes of `v` to `out`.
pub fn append_be_u64(out: &mut Vec<u8>, v: u64)
    ensures
        final(out)@ == old(out)@ + be_u64(v),
{
    let ghost start = out@;
    let mut k: u64 = 0;
    while k < 8
        invariant
            k <= 8,
            out@ == start + be_u64(v).subrange(0, k as int),
        decreases 8 - k,
    {
        out.push(((v >> (56 - 8 * k)) & 0xff) as u8);
        k += 1;
        assert(out@ =~= start + be_u64(v).subrange(0, k as int));
    }
    assert(be_u64(v).subrange(0, 8) =~= be_u64(v));
}

/// Appends the four big-endian bytes of `v` to `out`.
pub fn append_be_u32(out: &mut Vec<u8>, v: u32)
    ensures
        final(out)@ == old(out)@ + be_u32(v),
{
    let ghost start = out@;
    let mut k: u32 = 0;
    while k < 4
        invariant
            k <= 4,
            out@ == start + be_u32(v).subrange(0, k as int),
        decreases 4 - k,
    {
        out.push(((v >> (24 - 8 * k)) & 0xff) as u8);
        k += 1;
        assert(out@ =~= start + be_u32(v).subrange(0, k as int));
    }
    assert(be_u32(v).subrange(0, 4) =~= be_u32(v));
}

/// Two byte strings are equal.
pub fn bytes_eq(a: &[u8], b: &[u8]) -> (r: bool)
    ensures
        r == (a@ == b@),
{
    if a.len() != b.len() {
        return false;
    }
    let mut i: usize = 0;
    while i < a.len()
        invariant
            a@.len() == b@.len(),
            i <= a@.len(),
            forall|k: int| 0 <= k < i ==> a@[k] == b@[k],
        decreases a@.len() - i,
    {
        if a[i] != b[i] {
            return false;
        }
        i += 1;
    }
    assert(a@ =~= b@);
    true
}

/// A copy of `src`.
pub fn copy_bytes(src: &[u8]) -> (r: Vec<u8>)
    ensures
        r@ == src@,
{
    let mut out: Vec<u8> = Vec::new();
    append_bytes(&mut out, src);
    assert(out@ =~= src@);
    out
}

} // verus!
