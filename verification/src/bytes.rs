//! Little-endian primitives shared by the decoder and the encoder: the byte
//! images of 16- and 32-bit words, and offset-addressed reads over a byte
//! stream held in memory.

use crate::entry::ScriptEntryListError;
use vstd::prelude::*;

verus! {

/// The four bytes of `x` in little-endian order.
pub open spec fn le32(x: u32) -> Seq<u8> {
    seq![
        (x & 0xff) as u8,
        ((x >> 8) & 0xff) as u8,
        ((x >> 16) & 0xff) as u8,
        ((x >> 24) & 0xff) as u8,
    ]
}

/// The two bytes of `x` in little-endian order.
pub open spec fn le16(x: u16) -> Seq<u8> {
    seq![(x & 0xff) as u8, ((x >> 8) & 0xff) as u8]
}

/// The `u32` stored in little-endian order in the four bytes starting at `pos`.
pub open spec fn u32_at(bytes: Seq<u8>, pos: int) -> u32 {
    (bytes[pos] as u32) | ((bytes[pos + 1] as u32) << 8) | ((bytes[pos + 2] as u32) << 16) | ((
    bytes[pos + 3] as u32) << 24)
}

/// The `u16` stored in little-endian order in the two bytes starting at `pos`.
pub open spec fn u16_at(bytes: Seq<u8>, pos: int) -> u16 {
    (bytes[pos] as u16) | ((bytes[pos + 1] as u16) << 8)
}

/// Reading back the four bytes of `le32` gives the value that was stored.
pub proof fn lemma_le32_roundtrip(bytes: Seq<u8>, pos: int, x: u32)
    requires
        0 <= pos,
        pos + 4 <= bytes.len(),
        bytes.subrange(pos, pos + 4) == le32(x),
    ensures
        u32_at(bytes, pos) == x,
{
    assert(bytes[pos] == le32(x)[0]);
    assert(bytes[pos + 1] == le32(x)[1]);
    assert(bytes[pos + 2] == le32(x)[2]);
    assert(bytes[pos + 3] == le32(x)[3]);
    assert(((x & 0xff) as u8 as u32) | ((((x >> 8) & 0xff) as u8 as u32) << 8) | ((((x >> 16)
        & 0xff) as u8 as u32) << 16) | ((((x >> 24) & 0xff) as u8 as u32) << 24) == x)
        by (bit_vector);
}

/// Reading back the two bytes of `le16` gives the value that was stored.
pub proof fn lemma_le16_roundtrip(bytes: Seq<u8>, pos: int, x: u16)
    requires
        0 <= pos,
        pos + 2 <= bytes.len(),
        bytes.subrange(pos, pos + 2) == le16(x),
    ensures
        u16_at(bytes, pos) == x,
{
    assert(bytes[pos] == le16(x)[0]);
    assert(bytes[pos + 1] == le16(x)[1]);
    assert(((x & 0xff) as u8 as u16) | ((((x >> 8) & 0xff) as u8 as u16) << 8) == x)
        by (bit_vector);
}

/// Reads the little-endian `u32` stored at byte position `pos` of `bytes`,
/// or reports an I/O failure when fewer than four bytes remain there.
pub fn read_u32(bytes: &[u8], pos: usize) -> (r: Result<u32, ScriptEntryListError>)
    ensures
        match r {
            Ok(x) => pos + 4 <= bytes@.len() && x == u32_at(bytes@, pos as int),
            Err(e) => pos + 4 > bytes@.len() && e == ScriptEntryListError::IOError,
        },
{
    if bytes.len() < 4 || pos > bytes.len() - 4 {
        return Err(ScriptEntryListError::IOError);
    }
    let b0 = bytes[pos] as u32;
    let b1 = bytes[pos + 1] as u32;
    let b2 = bytes[pos + 2] as u32;
    let b3 = bytes[pos + 3] as u32;
    Ok(b0 | (b1 << 8) | (b2 << 16) | (b3 << 24))
}

/// Appends the four little-endian bytes of `x` to `out`.
pub fn push_le32(out: &mut Vec<u8>, x: u32)
    ensures
        final(out)@ == old(out)@ + le32(x),
{
    out.push((x & 0xff) as u8);
    out.push(((x >> 8) & 0xff) as u8);
    out.push(((x >> 16) & 0xff) as u8);
    out.push(((x >> 24) & 0xff) as u8);
    assert(out@ =~= old(out)@ + le32(x));
}

/// Appends the two little-endian bytes of `x` to `out`.
pub fn push_le16(out: &mut Vec<u8>, x: u16)
    ensures
        final(out)@ == old(out)@ + le16(x),
{
    out.push((x & 0xff) as u8);
    out.push(((x >> 8) & 0xff) as u8);
    assert(out@ =~= old(out)@ + le16(x));
}

} // verus!
