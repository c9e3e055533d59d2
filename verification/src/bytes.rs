//! Big-endian integers in byte sequences.

use vstd::prelude::*;

verus! {

/// The 16-bit big-endian integer at offset `o` of `s`.
pub open spec fn be16(s: Seq<u8>, o: int) -> u16 {
    (s[o] * 0x100 + s[o + 1]) as u16
}

/// The 32-bit big-endian integer at offset `o` of `s`.
pub open spec fn be32(s: Seq<u8>, o: int) -> u32 {
    (s[o] * 0x100_0000 + s[o + 1] * 0x1_0000 + s[o + 2] * 0x100 + s[o + 3]) as u32
}

/// The 64-bit big-endian integer at offset `o` of `s`.
pub open spec fn be64(s: Seq<u8>, o: int) -> u64 {
    (be32(s, o) * 0x1_0000_0000 + be32(s, o + 4)) as u64
}

/// The big-endian encoding of a 16-bit integer.
pub open spec fn be16_bytes(v: u16) -> Seq<u8> {
    seq![(v / 0x100) as u8, (v % 0x100) as u8]
}

/// The big-endian encoding of a 32-bit integer.
pub open spec fn be32_bytes(v: u32) -> Seq<u8> {
    seq![
        (v / 0x100_0000) as u8,
        (v / 0x1_0000 % 0x100) as u8,
        (v / 0x100 % 0x100) as u8,
        (v % 0x100) as u8,
    ]
}

/// The big-endian encoding of a 64-bit integer.
pub open spec fn be64_bytes(v: u64) -> Seq<u8> {
    be32_bytes((v / 0x1_0000_0000) as u32) + be32_bytes((v % 0x1_0000_0000) as u32)
}

/// Reading back an encoded 16-bit integer gives the integer.
pub proof fn lemma_be16_roundtrip(s: Seq<u8>, o: int, v: u16)
    requires
        0 <= o,
        o + 2 <= s.len(),
        s.subrange(o, o + 2) == be16_bytes(v),
    ensures
        be16(s, o) == v,
{
    let t = s.subrange(o, o + 2);
    assert(s[o] == t[0] && s[o + 1] == t[1]);
}

/// Reading back an encoded 32-bit integer gives the integer.
pub proof fn lemma_be32_roundtrip(s: Seq<u8>, o: int, v: u32)
    requires
        0 <= o,
        o + 4 <= s.len(),
        s.subrange(o, o + 4) == be32_bytes(v),
    ensures
        be32(s, o) == v,
{
    let t = s.subrange(o, o + 4);
    assert(s[o] == t[0] && s[o + 1] == t[1] && s[o + 2] == t[2] && s[o + 3] == t[3]);
}

/// Reads a 16-bit big-endian integer, `None` past the end of the buffer.
pub fn read_u16_be(buf: &[u8], offset: usize) -> (r: Option<u16>)
    ensures
        r == (if offset + 2 <= buf@.len() {
            Some(be16(buf@, offset as int))
        } else {
            None
        }),
{
    if buf.len() < 2 || offset > buf.len() - 2 {
        return None;
    }
    Some((buf[offset] as u16) * 0x100 + (buf[offset + 1] as u16))
}

/// Reads a 32-bit big-endian integer, `None` past the end of the buffer.
pub fn read_u32_be(buf: &[u8], offset: usize) -> (r: Option<u32>)
    ensures
        r == (if offset + 4 <= buf@.len() {
            Some(be32(buf@, offset as int))
        } else {
            None
        }),
{
    if buf.len() < 4 || offset > buf.len() - 4 {
        return None;
    }
    Some(
        (buf[offset] as u32) * 0x100_0000 + (buf[offset + 1] as u32) * 0x1_0000 + (buf[offset
            + 2] as u32) * 0x100 + (buf[offset + 3] as u32),
    )
}

/// Reads a 64-bit big-endian integer, `None` past the end of the buffer.
pub fn read_u64_be(buf: &[u8], offset: usize) -> (r: Option<u64>)
    ensures
        r == (if offset + 8 <= buf@.len() {
            Some(be64(buf@, offset as int))
        } else {
            None
        }),
{
    if buf.len() < 8 || offset > buf.len() - 8 {
        return None;
    }
    match (read_u32_be(buf, offset), read_u32_be(buf, offset + 4)) {
        (Some(hi), Some(lo)) => Some((hi as u64) * 0x1_0000_0000 + (lo as u64)),
        _ => None,
    }
}

/// Appends a 16-bit integer in big-endian order.
pub fn push_u16_be(out: &mut Vec<u8>, v: u16)
    ensures
        final(out)@ == old(out)@ + be16_bytes(v),
{
    out.push((v / 0x100) as u8);
    out.push((v % 0x100) as u8);
    assert(out@ =~= old(out)@ + be16_bytes(v));
}

/// Appends a 32-bit integer in big-endian order.
pub fn push_u32_be(out: &mut Vec<u8>, v: u32)
    ensures
        final(out)@ == old(out)@ + be32_bytes(v),
{
    out.push((v / 0x100_0000) as u8);
    out.push((v / 0x1_0000 % 0x100) as u8);
    out.push((v / 0x100 % 0x100) as u8);
    out.push((v % 0x100) as u8);
    assert(out@ =~= old(out)@ + be32_bytes(v));
}

/// Appends a 64-bit integer in big-endian order.
pub fn push_u64_be(out: &mut Vec<u8>, v: u64)
    ensures
        final(out)@ == old(out)@ + be64_bytes(v),
{
    push_u32_be(out, (v / 0x1_0000_0000) as u32);
    push_u32_be(out, (v % 0x1_0000_0000) as u32);
    assert(out@ =~= old(out)@ + be64_bytes(v));
}

/// Appends every byte of `b`.
pub fn push_bytes(out: &mut Vec<u8>, b: &[u8])
    ensures
        final(out)@ == old(out)@ + b@,
{
    out.extend_from_slice(b);
    assert(out@ =~= old(out)@ + b@);
}

/// A new vector with the bytes of `data` from `start` up to `end`.
pub fn copy_range(data: &[u8], start: usize, end: usize) -> (r: Vec<u8>)
    requires
        start <= end <= data@.len(),
    ensures
        r@ == data@.subrange(start as int, end as int),
{
    let part: &[u8] = &data[start..end];
    let mut out: Vec<u8> = Vec::new();
    push_bytes(&mut out, part);
    assert(out@ =~= data@.subrange(start as int, end as int));
    out
}

} // verus!
