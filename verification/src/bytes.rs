//! Little-endian integer fields read out of a byte buffer.
//!
//! Every multi-byte field of both containers is a little-endian unsigned
//! integer; signed fields are stored as their two's-complement bit pattern,
//! so a value at or above half the range stands for a negative number.

use vstd::prelude::*;

verus! {

/// The unsigned 64-bit value laid out little-endian at `pos`.
pub open spec fn le_u64_at(d: Seq<u8>, pos: int) -> int {
    d[pos] + d[pos + 1] * 0x100 + d[pos + 2] * 0x1_0000 + d[pos + 3] * 0x100_0000 + d[pos
        + 4] * 0x1_0000_0000 + d[pos + 5] * 0x100_0000_0000 + d[pos + 6] * 0x1_0000_0000_0000 + d[
        pos + 7
    ] * 0x100_0000_0000_0000
}

/// The unsigned 32-bit value laid out little-endian at `pos`.
pub open spec fn le_u32_at(d: Seq<u8>, pos: int) -> int {
    d[pos] + d[pos + 1] * 0x100 + d[pos + 2] * 0x1_0000 + d[pos + 3] * 0x100_0000
}

/// Read the little-endian u64 field at `pos`.
pub fn le_u64(d: &Vec<u8>, pos: usize) -> (r: u64)
    requires
        pos + 8 <= d@.len(),
    ensures
        r == le_u64_at(d@, pos as int),
{
    let n: usize = d.len();
    assert(pos + 8 <= n);
    (d[pos] as u64) + (d[pos + 1] as u64) * 0x100 + (d[pos + 2] as u64) * 0x1_0000 + (d[pos
        + 3] as u64) * 0x100_0000 + (d[pos + 4] as u64) * 0x1_0000_0000 + (d[pos
        + 5] as u64) * 0x100_0000_0000 + (d[pos + 6] as u64) * 0x1_0000_0000_0000 + (d[pos
        + 7] as u64) * 0x100_0000_0000_0000
}

/// Read the little-endian u32 field at `pos`.
pub fn le_u32(d: &Vec<u8>, pos: usize) -> (r: u32)
    requires
        pos + 4 <= d@.len(),
    ensures
        r == le_u32_at(d@, pos as int),
{
    let n: usize = d.len();
    assert(pos + 4 <= n);
    (d[pos] as u32) + (d[pos + 1] as u32) * 0x100 + (d[pos + 2] as u32) * 0x1_0000 + (d[pos
        + 3] as u32) * 0x100_0000
}

} // verus!
