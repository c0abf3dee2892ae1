//! Reading numbers from bytes.

use vstd::prelude::*;

verus! {

/// The 32-bit value whose bytes, lowest first, stand at `offset`.
pub open spec fn le_u32(bytes: Seq<u8>, offset: int) -> u32 {
    (bytes[offset] as int + bytes[offset + 1] as int * 0x100 + bytes[offset + 2] as int * 0x1_0000
        + bytes[offset + 3] as int * 0x100_0000) as u32
}

/// The 32-bit value at `offset` of `bytes`, lowest byte first.
pub fn read_u32(bytes: &Vec<u8>, offset: usize) -> (r: u32)
    requires
        offset + 4 <= bytes.len(),
    ensures
        r == le_u32(bytes@, offset as int),
{
    let b0: u32 = bytes[offset] as u32;
    let b1: u32 = bytes[offset + 1] as u32;
    let b2: u32 = bytes[offset + 2] as u32;
    let b3: u32 = bytes[offset + 3] as u32;
    b0 + b1 * 0x100 + b2 * 0x1_0000 + b3 * 0x100_0000
}

} // verus!
