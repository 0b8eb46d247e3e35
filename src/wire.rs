//! Big-endian integer fields of fixed-layout datagrams.
use vstd::prelude::*;

verus! {

/// The big-endian 16-bit field at index `i`.
pub open spec fn be16(b: Seq<u8>, i: int) -> int {
    b[i] * 256 + b[i + 1]
}

/// The big-endian 32-bit field at index `i`.
pub open spec fn be32(b: Seq<u8>, i: int) -> int {
    be16(b, i) * 65536 + be16(b, i + 2)
}

/// The big-endian 64-bit field at index `i`.
pub open spec fn be64(b: Seq<u8>, i: int) -> int {
    be32(b, i) * 4294967296 + be32(b, i + 4)
}

/// The two big-endian bytes of `x`.
pub open spec fn u16_bytes(x: int) -> Seq<u8> {
    seq![(x / 256) as u8, (x % 256) as u8]
}

/// The four big-endian bytes of `x`.
pub open spec fn u32_bytes(x: int) -> Seq<u8> {
    u16_bytes(x / 65536) + u16_bytes(x % 65536)
}

/// The eight big-endian bytes of `x`.
pub open spec fn u64_bytes(x: int) -> Seq<u8> {
    u32_bytes(x / 4294967296) + u32_bytes(x % 4294967296)
}

/// Reads the big-endian 16-bit field at `at`.
pub fn read_u16(b: &[u8], at: usize) -> (r: u16)
    requires
        at + 2 <= b@.len(),
    ensures
        r as int == be16(b@, at as int),
{
    (b[at] as u16) * 256 + b[at + 1] as u16
}

/// Reads the big-endian 32-bit field at `at`.
pub fn read_u32(b: &[u8], at: usize) -> (r: u32)
    requires
        at + 4 <= b@.len(),
    ensures
        r as int == be32(b@, at as int),
{
    let _len = b.len();
    (read_u16(b, at) as u32) * 65536 + read_u16(b, at + 2) as u32
}

/// Reads the big-endian 64-bit field at `at`.
pub fn read_u64(b: &[u8], at: usize) -> (r: u64)
    requires
        at + 8 <= b@.len(),
    ensures
        r as int == be64(b@, at as int),
{
    let _len = b.len();
    (read_u32(b, at) as u64) * 4294967296 + read_u32(b, at + 4) as u64
}

/// Appends the two big-endian bytes of `x`.
pub fn push_u16(out: &mut Vec<u8>, x: u16)
    ensures
        final(out)@ == old(out)@ + u16_bytes(x as int),
{
    out.push((x / 256) as u8);
    out.push((x % 256) as u8);
    assert(final(out)@ =~= old(out)@ + u16_bytes(x as int));
}

/// Appends the four big-endian bytes of `x`.
pub fn push_u32(out: &mut Vec<u8>, x: u32)
    ensures
        final(out)@ == old(out)@ + u32_bytes(x as int),
{
    push_u16(out, (x / 65536) as u16);
    push_u16(out, (x % 65536) as u16);
    assert(final(out)@ =~= old(out)@ + u32_bytes(x as int));
}

/// Appends the eight big-endian bytes of `x`.
pub fn push_u64(out: &mut Vec<u8>, x: u64)
    ensures
        final(out)@ == old(out)@ + u64_bytes(x as int),
{
    push_u32(out, (x / 4294967296) as u32);
    push_u32(out, (x % 4294967296) as u32);
    assert(final(out)@ =~= old(out)@ + u64_bytes(x as int));
}

/// A copy of `b`.
pub fn copy_bytes(b: &Vec<u8>) -> (r: Vec<u8>)
    ensures
        r@ == b@,
{
    let mut out: Vec<u8> = Vec::new();
    let mut k: usize = 0;
    while k < b.len()
        invariant
            k <= b@.len(),
            out@ == b@.subrange(0, k as int),
        decreases b@.len() - k,
    {
        out.push(b[k]);
        k = k + 1;
        assert(out@ =~= b@.subrange(0, k as int));
    }
    assert(b@.subrange(0, b@.len() as int) =~= b@);
    out
}

/// Reading a 16-bit field back from its bytes gives the number.
pub proof fn lemma_be16_bytes(b: Seq<u8>, i: int, x: int)
    requires
        0 <= x < 65536,
        0 <= i,
        i + 2 <= b.len(),
        b.subrange(i, i + 2) == u16_bytes(x),
    ensures
        be16(b, i) == x,
{
    assert(b[i] == b.subrange(i, i + 2)[0]);
    assert(b[i + 1] == b.subrange(i, i + 2)[1]);
}

/// Reading a 32-bit field back from its bytes gives the number.
pub proof fn lemma_be32_bytes(b: Seq<u8>, i: int, x: int)
    requires
        0 <= x < 4294967296,
        0 <= i,
        i + 4 <= b.len(),
        b.subrange(i, i + 4) == u32_bytes(x),
    ensures
        be32(b, i) == x,
{
    assert(b.subrange(i, i + 2) =~= b.subrange(i, i + 4).subrange(0, 2));
    assert(b.subrange(i + 2, i + 4) =~= b.subrange(i, i + 4).subrange(2, 4));
    assert(u32_bytes(x).subrange(0, 2) =~= u16_bytes(x / 65536));
    assert(u32_bytes(x).subrange(2, 4) =~= u16_bytes(x % 65536));
    lemma_be16_bytes(b, i, x / 65536);
    lemma_be16_bytes(b, i + 2, x % 65536);
}

/// Reading a 64-bit field back from its bytes gives the number.
pub proof fn lemma_be64_bytes(b: Seq<u8>, i: int, x: int)
    requires
        0 <= x < 18446744073709551616,
        0 <= i,
        i + 8 <= b.len(),
        b.subrange(i, i + 8) == u64_bytes(x),
    ensures
        be64(b, i) == x,
{
    assert(b.subrange(i, i + 4) =~= b.subrange(i, i + 8).subrange(0, 4));
    assert(b.subrange(i + 4, i + 8) =~= b.subrange(i, i + 8).subrange(4, 8));
    assert(u64_bytes(x).subrange(0, 4) =~= u32_bytes(x / 4294967296));
    assert(u64_bytes(x).subrange(4, 8) =~= u32_bytes(x % 4294967296));
    lemma_be32_bytes(b, i, x / 4294967296);
    lemma_be32_bytes(b, i + 4, x % 4294967296);
}

} // verus!
