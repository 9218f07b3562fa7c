//! Big-endian integers inside a byte buffer.

use vstd::prelude::*;

verus! {

/// The two bytes of `x`, most significant first.
pub open spec fn be16(x: u16) -> Seq<u8> {
    seq![(x / 256) as u8, (x % 256) as u8]
}

/// The 16-bit big-endian integer that starts at `pos`.
pub open spec fn u16_at(buf: Seq<u8>, pos: int) -> u16
    recommends
        0 <= pos,
        pos + 2 <= buf.len(),
{
    (buf[pos] as int * 256 + buf[pos + 1] as int) as u16
}

/// The 32-bit big-endian integer that starts at `pos`.
pub open spec fn u32_at(buf: Seq<u8>, pos: int) -> u32
    recommends
        0 <= pos,
        pos + 4 <= buf.len(),
{
    (buf[pos] as int * 0x100_0000 + buf[pos + 1] as int * 0x1_0000 + buf[pos + 2] as int * 0x100
        + buf[pos + 3] as int) as u32
}

/// `buf` with the bytes from `at` on replaced by `bytes`; the rest is kept.
pub open spec fn overwrite(buf: Seq<u8>, at: int, bytes: Seq<u8>) -> Seq<u8>
    recommends
        0 <= at,
        at + bytes.len() <= buf.len(),
{
    Seq::new(
        buf.len(),
        |i: int|
            if at <= i < at + bytes.len() {
                bytes[i - at]
            } else {
                buf[i]
            },
    )
}

/// Writes `x` big-endian at `buf[at..at + 2]`.
pub fn put_u16(buf: &mut [u8; 512], at: usize, x: u16)
    requires
        at + 2 <= 512,
    ensures
        final(buf)@ == overwrite(old(buf)@, at as int, be16(x)),
{
    buf[at] = (x / 256) as u8;
    buf[at + 1] = (x % 256) as u8;
}

/// Reads the 16-bit big-endian integer at `buf[at..at + 2]`.
pub fn get_u16(buf: &[u8], at: usize) -> (x: u16)
    requires
        at + 2 <= buf.len(),
    ensures
        x == u16_at(buf@, at as int),
{
    (buf[at] as u16) * 256 + (buf[at + 1] as u16)
}

/// Reads the 32-bit big-endian integer at `buf[at..at + 4]`.
pub fn get_u32(buf: &[u8], at: usize) -> (x: u32)
    requires
        at + 4 <= buf.len(),
    ensures
        x == u32_at(buf@, at as int),
{
    (buf[at] as u32) * 0x100_0000 + (buf[at + 1] as u32) * 0x1_0000 + (buf[at + 2] as u32) * 0x100
        + (buf[at + 3] as u32)
}

} // verus!
