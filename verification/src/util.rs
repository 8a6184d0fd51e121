//! Readers for big-endian integers at a moving offset into a byte buffer.

use vstd::prelude::*;

verus! {

/// The unsigned 16-bit number whose two bytes stand at `at`, most significant byte first.
pub open spec fn be_u16(buf: Seq<u8>, at: int) -> u16 {
    (buf[at] * 0x100 + buf[at + 1]) as u16
}

/// The unsigned 24-bit number whose three bytes stand at `at`, most significant byte first.
pub open spec fn be_u24(buf: Seq<u8>, at: int) -> u32 {
    (buf[at] * 0x1_0000 + buf[at + 1] * 0x100 + buf[at + 2]) as u32
}

/// The unsigned 32-bit number whose four bytes stand at `at`, most significant byte first.
pub open spec fn be_u32(buf: Seq<u8>, at: int) -> u32 {
    (buf[at] * 0x100_0000 + buf[at + 1] * 0x1_0000 + buf[at + 2] * 0x100 + buf[at + 3]) as u32
}

/// The signed 16-bit number, in two's complement, whose two bytes stand at `at`.
pub open spec fn be_i16(buf: Seq<u8>, at: int) -> i16 {
    let unsigned = be_u16(buf, at) as int;
    if unsigned < 0x8000 {
        unsigned as i16
    } else {
        (unsigned - 0x1_0000) as i16
    }
}

/// The four bytes at `at`.
pub open spec fn magic_at(buf: Seq<u8>, at: int) -> [u8; 4] {
    [buf[at], buf[at + 1], buf[at + 2], buf[at + 3]]
}

/// Reads a four-byte section tag and moves `offset` past it.
pub fn read_magic(buf: &[u8], offset: &mut usize) -> (bytes: [u8; 4])
    requires
        *old(offset) + 4 <= buf@.len(),
    ensures
        bytes == magic_at(buf@, *old(offset) as int),
        bytes@ == buf@.subrange(*old(offset) as int, *old(offset) + 4),
        *final(offset) == *old(offset) + 4,
{
    let bytes: [u8; 4] = [buf[*offset], buf[*offset + 1], buf[*offset + 2], buf[*offset + 3]];
    *offset += 4;
    bytes
}

/// Reads one byte and moves `offset` past it.
pub fn read_u8(buf: &[u8], offset: &mut usize) -> (value: u8)
    requires
        *old(offset) < buf@.len(),
    ensures
        value == buf@[*old(offset) as int],
        *final(offset) == *old(offset) + 1,
{
    let value: u8 = buf[*offset];
    *offset += 1;
    value
}

/// Reads a signed 16-bit integer and moves `offset` past it.
pub fn read_i16(buf: &[u8], offset: &mut usize) -> (value: i16)
    requires
        *old(offset) + 2 <= buf@.len(),
    ensures
        value == be_i16(buf@, *old(offset) as int),
        value as int % 0x1_0000 == buf@[*old(offset) as int] * 0x100 + buf@[*old(offset) + 1],
        *final(offset) == *old(offset) + 2,
{
    let unsigned: u16 = read_u16(buf, offset);
    if unsigned < 0x8000 {
        unsigned as i16
    } else {
        (unsigned as i32 - 0x1_0000) as i16
    }
}

/// Reads an unsigned 16-bit integer and moves `offset` past it.
pub fn read_u16(buf: &[u8], offset: &mut usize) -> (value: u16)
    requires
        *old(offset) + 2 <= buf@.len(),
    ensures
        value == be_u16(buf@, *old(offset) as int),
        value == buf@[*old(offset) as int] * 0x100 + buf@[*old(offset) + 1],
        *final(offset) == *old(offset) + 2,
{
    let value: u16 = buf[*offset] as u16 * 0x100 + buf[*offset + 1] as u16;
    *offset += 2;
    value
}

/// Reads an unsigned 24-bit integer and moves `offset` past it.
pub fn read_u24(buf: &[u8], offset: &mut usize) -> (value: u32)
    requires
        *old(offset) + 3 <= buf@.len(),
    ensures
        value == be_u24(buf@, *old(offset) as int),
        value == buf@[*old(offset) as int] * 0x1_0000 + buf@[*old(offset) + 1] * 0x100
            + buf@[*old(offset) + 2],
        *final(offset) == *old(offset) + 3,
{
    let value: u32 = buf[*offset] as u32 * 0x1_0000 + buf[*offset + 1] as u32 * 0x100 + buf[*offset
        + 2] as u32;
    *offset += 3;
    value
}

/// Reads an unsigned 32-bit integer and moves `offset` past it.
pub fn read_u32(buf: &[u8], offset: &mut usize) -> (value: u32)
    requires
        *old(offset) + 4 <= buf@.len(),
    ensures
        value == be_u32(buf@, *old(offset) as int),
        value == buf@[*old(offset) as int] * 0x100_0000 + buf@[*old(offset) + 1] * 0x1_0000
            + buf@[*old(offset) + 2] * 0x100 + buf@[*old(offset) + 3],
        *final(offset) == *old(offset) + 4,
{
    let value: u32 = buf[*offset] as u32 * 0x100_0000 + buf[*offset + 1] as u32 * 0x1_0000
        + buf[*offset + 2] as u32 * 0x100 + buf[*offset + 3] as u32;
    *offset += 4;
    value
}

} // verus!
