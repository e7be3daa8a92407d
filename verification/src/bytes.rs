//! Little-endian integers as they lie in a byte buffer.
//!
//! The spec functions here are the meaning of "the little-endian integer at
//! offset `pos`"; the executable readers and writers are proved against them,
//! and the lemmas at the end say that writing is the inverse of reading.

use vstd::prelude::*;

verus! {

/// The unsigned 16-bit integer whose little-endian form is `b[pos]`, `b[pos + 1]`.
pub open spec fn u16_at(b: Seq<u8>, pos: int) -> u16
    recommends
        0 <= pos,
        pos + 2 <= b.len(),
{
    (b[pos] as int + b[pos + 1] as int * 0x100) as u16
}

/// The unsigned 32-bit integer whose little-endian form is `b[pos]` to `b[pos + 3]`.
pub open spec fn u32_at(b: Seq<u8>, pos: int) -> u32
    recommends
        0 <= pos,
        pos + 4 <= b.len(),
{
    (b[pos] as int + b[pos + 1] as int * 0x100 + b[pos + 2] as int * 0x1_0000 + b[pos + 3] as int
        * 0x100_0000) as u32
}

/// The unsigned 32-bit integer whose big-endian form is `b[pos]` to `b[pos + 3]`.
pub open spec fn u32_be_at(b: Seq<u8>, pos: int) -> u32
    recommends
        0 <= pos,
        pos + 4 <= b.len(),
{
    (b[pos] as int * 0x100_0000 + b[pos + 1] as int * 0x1_0000 + b[pos + 2] as int * 0x100 + b[pos
        + 3] as int) as u32
}

/// The four bytes of `v`, most significant first.
pub open spec fn u32_be_bytes(v: u32) -> Seq<u8> {
    seq![
        (v / 0x100_0000) as u8,
        (v / 0x1_0000 % 0x100) as u8,
        (v / 0x100 % 0x100) as u8,
        (v % 0x100) as u8,
    ]
}

/// The two bytes of `v`, least significant first.
pub open spec fn u16_bytes(v: u16) -> Seq<u8> {
    seq![(v % 0x100) as u8, (v / 0x100) as u8]
}

/// The four bytes of `v`, least significant first.
pub open spec fn u32_bytes(v: u32) -> Seq<u8> {
    seq![
        (v % 0x100) as u8,
        (v / 0x100 % 0x100) as u8,
        (v / 0x1_0000 % 0x100) as u8,
        (v / 0x100_0000) as u8,
    ]
}

/// Reading back what [`u16_bytes`] wrote gives the value again.
pub proof fn lemma_u16_read_of_bytes(v: u16)
    ensures
        u16_bytes(v).len() == 2,
        u16_at(u16_bytes(v), 0) == v,
{
}

/// Writing what was read at `pos` reproduces the two bytes at `pos`.
pub proof fn lemma_u16_bytes_of_read(b: Seq<u8>, pos: int)
    requires
        0 <= pos,
        pos + 2 <= b.len(),
    ensures
        u16_bytes(u16_at(b, pos)) == b.subrange(pos, pos + 2),
{
    assert(u16_bytes(u16_at(b, pos)) =~= b.subrange(pos, pos + 2));
}

/// Reading back what [`u32_bytes`] wrote gives the value again.
pub proof fn lemma_u32_read_of_bytes(v: u32)
    ensures
        u32_bytes(v).len() == 4,
        u32_at(u32_bytes(v), 0) == v,
{
}

/// Writing what was read at `pos` reproduces the four bytes at `pos`.
pub proof fn lemma_u32_bytes_of_read(b: Seq<u8>, pos: int)
    requires
        0 <= pos,
        pos + 4 <= b.len(),
    ensures
        u32_bytes(u32_at(b, pos)) == b.subrange(pos, pos + 4),
{
    let b0 = b[pos] as int;
    let b1 = b[pos + 1] as int;
    let b2 = b[pos + 2] as int;
    let b3 = b[pos + 3] as int;
    let v = u32_at(b, pos) as int;
    lemma_split_low_byte(b0, b1 + b2 * 0x100 + b3 * 0x1_0000);
    lemma_split_low_byte(b1, b2 + b3 * 0x100);
    lemma_split_low_byte(b2, b3);
    assert(v / 0x100 == b1 + b2 * 0x100 + b3 * 0x1_0000);
    assert(v / 0x1_0000 == b2 + b3 * 0x100);
    assert(v / 0x100_0000 == b3);
    assert(u32_bytes(u32_at(b, pos)) =~= b.subrange(pos, pos + 4));
}

/// Writing the big-endian integer that was read at `pos` reproduces the four
/// bytes at `pos`.
pub proof fn lemma_u32_be_bytes_of_read(b: Seq<u8>, pos: int)
    requires
        0 <= pos,
        pos + 4 <= b.len(),
    ensures
        u32_be_bytes(u32_be_at(b, pos)) == b.subrange(pos, pos + 4),
{
    let b0 = b[pos + 3] as int;
    let b1 = b[pos + 2] as int;
    let b2 = b[pos + 1] as int;
    let b3 = b[pos] as int;
    let v = u32_be_at(b, pos) as int;
    lemma_split_low_byte(b0, b1 + b2 * 0x100 + b3 * 0x1_0000);
    lemma_split_low_byte(b1, b2 + b3 * 0x100);
    lemma_split_low_byte(b2, b3);
    assert(v / 0x100 == b1 + b2 * 0x100 + b3 * 0x1_0000);
    assert(v / 0x1_0000 == b2 + b3 * 0x100);
    assert(v / 0x100_0000 == b3);
    assert(u32_be_bytes(u32_be_at(b, pos)) =~= b.subrange(pos, pos + 4));
}

/// Reading back what [`u32_be_bytes`] wrote gives the value again.
pub proof fn lemma_u32_be_read_of_bytes(v: u32)
    ensures
        u32_be_bytes(v).len() == 4,
        u32_be_at(u32_be_bytes(v), 0) == v,
{
}

/// A number written as a low byte and the rest splits back into the two.
proof fn lemma_split_low_byte(lo: int, hi: int)
    requires
        0 <= lo < 0x100,
        0 <= hi,
    ensures
        (lo + hi * 0x100) % 0x100 == lo,
        (lo + hi * 0x100) / 0x100 == hi,
        (lo + hi * 0x100) / 0x1_0000 == hi / 0x100,
        (lo + hi * 0x100) / 0x100_0000 == hi / 0x1_0000,
{
}

/// A prefix of `b` followed by the byte at its end is the longer prefix.
pub proof fn lemma_extend_u8(prefix: Seq<u8>, b: Seq<u8>, pos: int, v: u8)
    requires
        0 <= pos < b.len(),
        prefix == b.subrange(0, pos),
        v == b[pos],
    ensures
        prefix + seq![v] == b.subrange(0, pos + 1),
{
    assert(prefix + seq![v] =~= b.subrange(0, pos + 1));
}

/// A prefix of `b` followed by the bytes of the 16-bit integer read at its
/// end is the longer prefix.
pub proof fn lemma_extend_u16(prefix: Seq<u8>, b: Seq<u8>, pos: int, v: u16)
    requires
        0 <= pos,
        pos + 2 <= b.len(),
        prefix == b.subrange(0, pos),
        v == u16_at(b, pos),
    ensures
        prefix + u16_bytes(v) == b.subrange(0, pos + 2),
{
    lemma_u16_bytes_of_read(b, pos);
    assert(b.subrange(0, pos) + b.subrange(pos, pos + 2) =~= b.subrange(0, pos + 2));
}

/// A prefix of `b` followed by the bytes of the 32-bit integer read at its
/// end is the longer prefix.
pub proof fn lemma_extend_u32(prefix: Seq<u8>, b: Seq<u8>, pos: int, v: u32)
    requires
        0 <= pos,
        pos + 4 <= b.len(),
        prefix == b.subrange(0, pos),
        v == u32_at(b, pos),
    ensures
        prefix + u32_bytes(v) == b.subrange(0, pos + 4),
{
    lemma_u32_bytes_of_read(b, pos);
    assert(b.subrange(0, pos) + b.subrange(pos, pos + 4) =~= b.subrange(0, pos + 4));
}

/// Reads the byte at `pos`.
pub fn read_u8(bytes: &[u8], pos: usize) -> (v: u8)
    requires
        pos < bytes@.len(),
    ensures
        v == bytes@[pos as int],
{
    bytes[pos]
}

/// Reads the little-endian 16-bit integer at `pos`.
pub fn read_u16(bytes: &[u8], pos: usize) -> (v: u16)
    requires
        pos + 2 <= bytes@.len(),
    ensures
        v == u16_at(bytes@, pos as int),
{
    let lo: u16 = bytes[pos] as u16;
    let hi: u16 = bytes[pos + 1] as u16;
    lo + hi * 0x100
}

/// Reads the little-endian 32-bit integer at `pos`.
pub fn read_u32(bytes: &[u8], pos: usize) -> (v: u32)
    requires
        pos + 4 <= bytes@.len(),
    ensures
        v == u32_at(bytes@, pos as int),
{
    let b0: u32 = bytes[pos] as u32;
    let b1: u32 = bytes[pos + 1] as u32;
    let b2: u32 = bytes[pos + 2] as u32;
    let b3: u32 = bytes[pos + 3] as u32;
    b0 + b1 * 0x100 + b2 * 0x1_0000 + b3 * 0x100_0000
}

/// Reads the big-endian 32-bit integer at `pos`.
pub fn read_u32_be(bytes: &[u8], pos: usize) -> (v: u32)
    requires
        pos + 4 <= bytes@.len(),
    ensures
        v == u32_be_at(bytes@, pos as int),
{
    let b0: u32 = bytes[pos] as u32;
    let b1: u32 = bytes[pos + 1] as u32;
    let b2: u32 = bytes[pos + 2] as u32;
    let b3: u32 = bytes[pos + 3] as u32;
    b0 * 0x100_0000 + b1 * 0x1_0000 + b2 * 0x100 + b3
}

/// Appends the big-endian form of `v` to `out`.
pub fn push_u32_be(out: &mut Vec<u8>, v: u32)
    ensures
        final(out)@ == old(out)@ + u32_be_bytes(v),
{
    out.push((v / 0x100_0000) as u8);
    out.push((v / 0x1_0000 % 0x100) as u8);
    out.push((v / 0x100 % 0x100) as u8);
    out.push((v % 0x100) as u8);
    assert(out@ =~= old(out)@ + u32_be_bytes(v));
}

/// Appends the byte `v` to `out`.
pub fn push_u8(out: &mut Vec<u8>, v: u8)
    ensures
        final(out)@ == old(out)@ + seq![v],
{
    out.push(v);
    assert(out@ =~= old(out)@ + seq![v]);
}

/// Appends the little-endian form of `v` to `out`.
pub fn push_u16(out: &mut Vec<u8>, v: u16)
    ensures
        final(out)@ == old(out)@ + u16_bytes(v),
{
    out.push((v % 0x100) as u8);
    out.push((v / 0x100) as u8);
    assert(out@ =~= old(out)@ + u16_bytes(v));
}

/// Appends the little-endian form of `v` to `out`.
pub fn push_u32(out: &mut Vec<u8>, v: u32)
    ensures
        final(out)@ == old(out)@ + u32_bytes(v),
{
    out.push((v % 0x100) as u8);
    out.push((v / 0x100 % 0x100) as u8);
    out.push((v / 0x1_0000 % 0x100) as u8);
    out.push((v / 0x100_0000) as u8);
    assert(out@ =~= old(out)@ + u32_bytes(v));
}

/// Appends the bytes of `src` from `from` up to `to` to `out`.
pub fn push_slice(out: &mut Vec<u8>, src: &[u8], from: usize, to: usize)
    requires
        from <= to <= src@.len(),
    ensures
        final(out)@ == old(out)@ + src@.subrange(from as int, to as int),
{
    let mut i: usize = from;
    while i < to
        invariant
            from <= i <= to,
            to <= src@.len(),
            out@ == old(out)@ + src@.subrange(from as int, i as int),
        decreases to - i,
    {
        out.push(src[i]);
        i += 1;
        assert(out@ =~= old(out)@ + src@.subrange(from as int, i as int));
    }
}

} // verus!
