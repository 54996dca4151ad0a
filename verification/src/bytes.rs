//! Fixed-width integers in little-endian and big-endian byte order.

use vstd::prelude::*;

verus! {

/// Bytes, as a mathematical value.
pub type Bytes = Seq<u8>;

/// The 16-bit value of two bytes.
pub open spec fn spec_u16(big_endian: bool, b: Seq<u8>) -> u16 {
    if big_endian {
        (b[0] * 0x100 + b[1]) as u16
    } else {
        (b[1] * 0x100 + b[0]) as u16
    }
}

/// The 32-bit value of four bytes.
pub open spec fn spec_u32(big_endian: bool, b: Seq<u8>) -> u32 {
    if big_endian {
        (b[0] * 0x100_0000 + b[1] * 0x1_0000 + b[2] * 0x100 + b[3]) as u32
    } else {
        (b[3] * 0x100_0000 + b[2] * 0x1_0000 + b[1] * 0x100 + b[0]) as u32
    }
}

/// The two bytes of a 16-bit value.
pub open spec fn u16_bytes(big_endian: bool, v: u16) -> Seq<u8> {
    let hi = (v / 0x100) as u8;
    let lo = (v % 0x100) as u8;
    if big_endian {
        seq![hi, lo]
    } else {
        seq![lo, hi]
    }
}

/// The four bytes of a 32-bit value.
pub open spec fn u32_bytes(big_endian: bool, v: u32) -> Seq<u8> {
    let b3 = (v / 0x100_0000) as u8;
    let b2 = (v / 0x1_0000 % 0x100) as u8;
    let b1 = (v / 0x100 % 0x100) as u8;
    let b0 = (v % 0x100) as u8;
    if big_endian {
        seq![b3, b2, b1, b0]
    } else {
        seq![b0, b1, b2, b3]
    }
}

/// Writing a 16-bit value and reading it back gives the value.
pub proof fn lemma_u16_roundtrip(big_endian: bool, v: u16)
    ensures
        u16_bytes(big_endian, v).len() == 2,
        spec_u16(big_endian, u16_bytes(big_endian, v)) == v,
{
}

/// Writing a 32-bit value and reading it back gives the value.
pub proof fn lemma_u32_roundtrip(big_endian: bool, v: u32)
    ensures
        u32_bytes(big_endian, v).len() == 4,
        spec_u32(big_endian, u32_bytes(big_endian, v)) == v,
{
}

/// Reads a 16-bit value from `buf` at `pos`.
pub fn get_u16(big_endian: bool, buf: &[u8], pos: usize) -> (v: u16)
    requires
        pos + 2 <= buf.len(),
    ensures
        v == spec_u16(big_endian, buf@.subrange(pos as int, pos + 2)),
{
    if big_endian {
        buf[pos] as u16 * 0x100 + buf[pos + 1] as u16
    } else {
        buf[pos + 1] as u16 * 0x100 + buf[pos] as u16
    }
}

/// Reads a 32-bit value from `buf` at `pos`.
pub fn get_u32(big_endian: bool, buf: &[u8], pos: usize) -> (v: u32)
    requires
        pos + 4 <= buf.len(),
    ensures
        v == spec_u32(big_endian, buf@.subrange(pos as int, pos + 4)),
{
    let b0 = buf[pos] as u32;
    let b1 = buf[pos + 1] as u32;
    let b2 = buf[pos + 2] as u32;
    let b3 = buf[pos + 3] as u32;
    if big_endian {
        b0 * 0x100_0000 + b1 * 0x1_0000 + b2 * 0x100 + b3
    } else {
        b3 * 0x100_0000 + b2 * 0x1_0000 + b1 * 0x100 + b0
    }
}

/// Appends the two bytes of `v` to `buf`.
pub fn put_u16(big_endian: bool, v: u16, buf: &mut Vec<u8>)
    ensures
        final(buf)@ == old(buf)@ + u16_bytes(big_endian, v),
{
    let hi = (v / 0x100) as u8;
    let lo = (v % 0x100) as u8;
    if big_endian {
        buf.push(hi);
        buf.push(lo);
    } else {
        buf.push(lo);
        buf.push(hi);
    }
}

/// Appends the four bytes of `v` to `buf`.
pub fn put_u32(big_endian: bool, v: u32, buf: &mut Vec<u8>)
    ensures
        final(buf)@ == old(buf)@ + u32_bytes(big_endian, v),
{
    let b3 = (v / 0x100_0000) as u8;
    let b2 = (v / 0x1_0000 % 0x100) as u8;
    let b1 = (v / 0x100 % 0x100) as u8;
    let b0 = (v % 0x100) as u8;
    if big_endian {
        buf.push(b3);
        buf.push(b2);
        buf.push(b1);
        buf.push(b0);
    } else {
        buf.push(b0);
        buf.push(b1);
        buf.push(b2);
        buf.push(b3);
    }
}

} // verus!
