//! Little-endian reads and writes of 32-bit words in byte sequences.
use vstd::prelude::*;

verus! {

/// Byte `k` (0 = least significant) of `x`.
pub open spec fn byte_of(x: u32, k: u32) -> u8 {
    ((x >> (8 * k)) & 0xff) as u8
}

/// The word whose little-endian bytes are `b0..b3`.
pub open spec fn le_u32(b0: u8, b1: u8, b2: u8, b3: u8) -> u32 {
    (b0 as u32) | ((b1 as u32) << 8u32) | ((b2 as u32) << 16u32) | ((b3 as u32) << 24u32)
}

/// The little-endian word at `off`, if four bytes are there.
pub open spec fn read_u32_at(s: Seq<u8>, off: int) -> Option<u32> {
    if 0 <= off && off + 4 <= s.len() {
        Some(le_u32(s[off], s[off + 1], s[off + 2], s[off + 3]))
    } else {
        None
    }
}

/// The little-endian signed word at `off`, if four bytes are there.
pub open spec fn read_i32_at(s: Seq<u8>, off: int) -> Option<i32> {
    match read_u32_at(s, off) {
        Some(u) => Some(u as i32),
        None => None,
    }
}

/// `s` with the little-endian bytes of `v` at `off`, or `s` unchanged when
/// the four bytes do not fit.
pub open spec fn put_u32(s: Seq<u8>, off: int, v: u32) -> Seq<u8> {
    if 0 <= off && off + 4 <= s.len() {
        s.update(off, byte_of(v, 0)).update(off + 1, byte_of(v, 1)).update(
            off + 2,
            byte_of(v, 2),
        ).update(off + 3, byte_of(v, 3))
    } else {
        s
    }
}

pub open spec fn put_i32(s: Seq<u8>, off: int, v: i32) -> Seq<u8> {
    put_u32(s, off, v as u32)
}

/// Reassembling the bytes of a word gives the word back.
pub proof fn lemma_le_u32_bytes(x: u32)
    ensures
        le_u32(byte_of(x, 0), byte_of(x, 1), byte_of(x, 2), byte_of(x, 3)) == x,
{
    assert(((x >> 0u32) & 0xff) as u8 as u32 | (((x >> 8u32) & 0xff) as u8 as u32) << 8u32
        | (((x >> 16u32) & 0xff) as u8 as u32) << 16u32 | (((x >> 24u32) & 0xff) as u8 as u32)
        << 24u32 == x) by (bit_vector);
}

/// A signed word survives the trip through its unsigned bits.
pub proof fn lemma_i32_u32_roundtrip(v: i32)
    ensures
        (v as u32) as i32 == v,
{
    assert((v as u32) as i32 == v) by (bit_vector);
}

/// Reading back a word just written gives it.
pub proof fn lemma_read_put_same(s: Seq<u8>, off: int, v: u32)
    requires
        0 <= off,
        off + 4 <= s.len(),
    ensures
        read_u32_at(put_u32(s, off, v), off) == Some(v),
{
    lemma_le_u32_bytes(v);
}

/// Writing a word leaves the words that do not overlap it unchanged.
pub proof fn lemma_read_put_other(s: Seq<u8>, off: int, v: u32, other: int)
    requires
        other + 4 <= off || off + 4 <= other,
    ensures
        read_u32_at(put_u32(s, off, v), other) == read_u32_at(s, other),
{
}

/// Writing a word leaves the bytes outside it unchanged.
pub proof fn lemma_put_outside(s: Seq<u8>, off: int, v: u32, k: int)
    requires
        k < off || off + 4 <= k,
        0 <= k < s.len(),
    ensures
        put_u32(s, off, v)[k] == s[k],
{
}

/// Reads from `data` the little-endian word at `offset`.
pub fn read_u32_slice(data: &[u8], offset: usize) -> (r: Option<u32>)
    ensures
        r == read_u32_at(data@, offset as int),
{
    if offset > data.len() || data.len() - offset < 4 {
        return None;
    }
    let b0 = data[offset];
    let b1 = data[offset + 1];
    let b2 = data[offset + 2];
    let b3 = data[offset + 3];
    Some((b0 as u32) | ((b1 as u32) << 8u32) | ((b2 as u32) << 16u32) | ((b3 as u32) << 24u32))
}

/// Reads from `data` the little-endian signed word at `offset`.
pub fn read_i32_slice(data: &[u8], offset: usize) -> (r: Option<i32>)
    ensures
        r == read_i32_at(data@, offset as int),
{
    match read_u32_slice(data, offset) {
        Some(u) => Some(u as i32),
        None => None,
    }
}

/// Writes the little-endian bytes of `value` at `offset` when they fit.
pub fn write_u32_slice(data: &mut [u8], offset: usize, value: u32)
    ensures
        final(data)@ == put_u32(old(data)@, offset as int, value),
{
    if offset > data.len() || data.len() - offset < 4 {
        return;
    }
    data[offset] = ((value >> 0u32) & 0xff) as u8;
    data[offset + 1] = ((value >> 8u32) & 0xff) as u8;
    data[offset + 2] = ((value >> 16u32) & 0xff) as u8;
    data[offset + 3] = ((value >> 24u32) & 0xff) as u8;
}

/// Writes the little-endian bytes of `value` at `offset` when they fit.
pub fn write_i32_slice(data: &mut [u8], offset: usize, value: i32)
    ensures
        final(data)@ == put_i32(old(data)@, offset as int, value),
{
    write_u32_slice(data, offset, value as u32);
}

} // verus!
