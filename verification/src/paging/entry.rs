//! Page-table entries: a physical frame address and attribute bits in one
//! 64-bit word.

use crate::bits::{
    bit_of_u64, get_bit_u64, get_bits_u64, set_bit_u64, set_bits_u64, with_bit_u64,
};
use vstd::prelude::*;

verus! {

/// Bit 0: the frame or table is in memory.
pub const PRESENT: usize = 0;

/// Bit 1: writes are allowed.
pub const WRITABLE: usize = 1;

/// Bit 2: ring 3 may access.
pub const USER_ACCESSIBLE: usize = 2;

/// Bit 3: writes go through the cache.
pub const WRITE_THROUGH: usize = 3;

/// Bit 4: the cache is not used.
pub const UNCACHED: usize = 4;

/// Bit 5: set by the processor on an access.
pub const ACCESSED: usize = 5;

/// Bit 6: set by the processor on a write.
pub const DIRTY: usize = 6;

/// Bit 7: in a level 2 or 3 table the entry maps a huge frame; in a level 1
/// table the mapping is global.
pub const HUGE: usize = 7;

/// Bit 63: code may not be run from the frame.
pub const NO_EXECUTE: usize = 63;

/// The bits of an entry that hold the frame address: bits 12 to 50.
pub const FRAME_MASK: u64 = 0x0007_ffff_ffff_f000;

/// The first address that no entry can hold.
pub const FRAME_LIMIT: u64 = 0x0008_0000_0000_0000;

/// One 64-bit page-table entry.
#[derive(Debug, Clone, Copy, PartialEq, Eq, Structural)]
pub struct Entry(pub u64);

impl Entry {
    /// Whether attribute bit `bit` is set.
    pub open spec fn flag(self, bit: usize) -> bool {
        bit_of_u64(self.0, bit)
    }

    /// This entry with attribute bit `bit` set to `on`.
    pub open spec fn with_flag(self, bit: usize, on: bool) -> Entry {
        Entry(with_bit_u64(self.0, bit, on))
    }

    /// The physical address that the entry holds.
    pub open spec fn frame(self) -> u64 {
        self.0 & FRAME_MASK
    }

    /// This entry with the frame address `phys`; the low 12 bits of `phys`
    /// are dropped.
    pub open spec fn with_frame(self, phys: u64) -> Entry {
        Entry((self.0 & !FRAME_MASK) | (phys & FRAME_MASK))
    }

    /// This entry, cachable or not: the uncached bit is the opposite of
    /// `is_cachable`.
    pub open spec fn with_cachability(self, is_cachable: bool) -> Entry {
        self.with_flag(UNCACHED, !is_cachable)
    }

    /// This entry, executable or not: the no-execute bit is the opposite of
    /// `is_executable`.
    pub open spec fn with_executability(self, is_executable: bool) -> Entry {
        self.with_flag(NO_EXECUTE, !is_executable)
    }

    /// The physical address stored in this entry.
    pub fn get_phys(&self) -> (r: u64)
        ensures
            r == self.frame(),
    {
        let field: u64 = get_bits_u64(self.0, 12, 51);
        proof {
            lemma_frame_field(self.0);
        }
        field << 12
    }

    /// Stores the physical address `phys` in this entry.
    pub fn set_phys(&mut self, phys: u64) -> (ret: &mut Entry)
        requires
            phys < FRAME_LIMIT,
        ensures
            *ret == old(self).with_frame(phys),
            *final(self) == *final(ret),
    {
        proof {
            lemma_frame_store(self.0, phys);
        }
        self.0 = set_bits_u64(self.0, 12, 51, phys >> 12);
        self
    }

    /// Whether the mapped frame or table is in memory.
    pub fn is_present(&self) -> (r: bool)
        ensures
            r == self.flag(PRESENT),
    {
        get_bit_u64(self.0, PRESENT)
    }

    pub fn set_present(&mut self, is_present: bool) -> (ret: &mut Self)
        ensures
            *ret == old(self).with_flag(PRESENT, is_present),
            *final(self) == *final(ret),
    {
        self.0 = set_bit_u64(self.0, PRESENT, is_present);
        self
    }

    /// Whether writes to the mapped frames are allowed.
    pub fn set_writable(&mut self, is_writable: bool) -> (ret: &mut Self)
        ensures
            *ret == old(self).with_flag(WRITABLE, is_writable),
            *final(self) == *final(ret),
    {
        self.0 = set_bit_u64(self.0, WRITABLE, is_writable);
        self
    }

    /// Whether ring 3 may access the mapped frames.
    pub fn set_user_accessible(&mut self, is_user_accessible: bool) -> (ret: &mut Self)
        ensures
            *ret == old(self).with_flag(USER_ACCESSIBLE, is_user_accessible),
            *final(self) == *final(ret),
    {
        self.0 = set_bit_u64(self.0, USER_ACCESSIBLE, is_user_accessible);
        self
    }

    /// Whether writes go through the cache rather than back from it.
    pub fn set_write_through(&mut self, can_write_through: bool) -> (ret: &mut Self)
        ensures
            *ret == old(self).with_flag(WRITE_THROUGH, can_write_through),
            *final(self) == *final(ret),
    {
        self.0 = set_bit_u64(self.0, WRITE_THROUGH, can_write_through);
        self
    }

    /// Whether the mapped frames are cached: clears the uncached bit for
    /// `true`, sets it for `false`.
    pub fn set_cachability(&mut self, is_cachable: bool) -> (ret: &mut Self)
        ensures
            *ret == old(self).with_cachability(is_cachable),
            *final(self) == *final(ret),
    {
        self.0 = set_bit_u64(self.0, UNCACHED, !is_cachable);
        self
    }

    /// Whether the uncached bit is set.
    pub fn is_uncached(&self) -> (r: bool)
        ensures
            r == self.flag(UNCACHED),
    {
        get_bit_u64(self.0, UNCACHED)
    }

    /// Whether the processor has accessed the mapped frame or table.
    pub fn was_accessed(&self) -> (r: bool)
        ensures
            r == self.flag(ACCESSED),
    {
        get_bit_u64(self.0, ACCESSED)
    }

    /// Whether the processor has written to the mapped frame.
    pub fn was_written_to(&self) -> (r: bool)
        ensures
            r == self.flag(DIRTY),
    {
        get_bit_u64(self.0, DIRTY)
    }

    /// Whether the entry maps a huge frame instead of a table.
    pub fn is_huge(&self) -> (r: bool)
        ensures
            r == self.flag(HUGE),
    {
        get_bit_u64(self.0, HUGE)
    }

    pub fn set_huge(&mut self, is_huge: bool) -> (ret: &mut Self)
        ensures
            *ret == old(self).with_flag(HUGE, is_huge),
            *final(self) == *final(ret),
    {
        self.0 = set_bit_u64(self.0, HUGE, is_huge);
        self
    }

    /// Whether the mapping stays in the TLB when the address space changes.
    pub fn set_global(&mut self, is_global: bool) -> (ret: &mut Self)
        ensures
            *ret == old(self).with_flag(HUGE, is_global),
            *final(self) == *final(ret),
    {
        self.0 = set_bit_u64(self.0, HUGE, is_global);
        self
    }

    /// Whether code may be run from the mapped frames: clears the no-execute
    /// bit for `true`, sets it for `false`.
    pub fn set_executability(&mut self, is_executable: bool) -> (ret: &mut Self)
        ensures
            *ret == old(self).with_executability(is_executable),
            *final(self) == *final(ret),
    {
        self.0 = set_bit_u64(self.0, NO_EXECUTE, !is_executable);
        self
    }
}

/// The frame field of a word, moved back to its place, is the word under the
/// frame mask.
proof fn lemma_frame_field(value: u64)
    by (bit_vector)
    ensures
        ((((value << 13u64) >> 13u64) >> 12u64) << 12u64) == value & 0x0007_ffff_ffff_f000u64,
{
}

/// An address below the frame limit fits the frame field, and storing it
/// there replaces the bits under the frame mask.
proof fn lemma_frame_store(value: u64, phys: u64)
    by (bit_vector)
    requires
        phys < 0x0008_0000_0000_0000u64,
    ensures
        (((phys >> 12u64) << 25u64) >> 25u64) == phys >> 12u64,
        (value & !((((!0u64) << 13u64) >> 13u64) >> 12u64 << 12u64)) | ((phys >> 12u64) << 12u64)
            == (value & !0x0007_ffff_ffff_f000u64) | (phys & 0x0007_ffff_ffff_f000u64),
{
}

/// Setting an attribute bit sets that bit and leaves every other bit as it
/// was.
pub proof fn lemma_flag_after_set(entry: Entry, bit: usize, on: bool, other: usize)
    requires
        bit < 64,
        other < 64,
    ensures
        entry.with_flag(bit, on).flag(other) == (if other == bit {
            on
        } else {
            entry.flag(other)
        }),
{
    let v: u64 = entry.0;
    let b: u64 = bit as u64;
    let o: u64 = other as u64;
    assert(b < 64 && o < 64 ==> ((v | (1u64 << b)) & (1u64 << o) != 0) == (if o == b {
        true
    } else {
        v & (1u64 << o) != 0
    })) by (bit_vector);
    assert(b < 64 && o < 64 ==> ((v & !(1u64 << b)) & (1u64 << o) != 0) == (if o == b {
        false
    } else {
        v & (1u64 << o) != 0
    })) by (bit_vector);
}

/// Setting an attribute bit outside the frame field leaves the frame address
/// as it was.
pub proof fn lemma_frame_after_flag(entry: Entry, bit: usize, on: bool)
    requires
        bit < 12 || 51 <= bit < 64,
    ensures
        entry.with_flag(bit, on).frame() == entry.frame(),
{
    let v: u64 = entry.0;
    let b: u64 = bit as u64;
    assert((b < 12 || (51 <= b && b < 64)) ==> (v | (1u64 << b)) & 0x0007_ffff_ffff_f000u64 == v
        & 0x0007_ffff_ffff_f000u64 && (v & !(1u64 << b)) & 0x0007_ffff_ffff_f000u64 == v
        & 0x0007_ffff_ffff_f000u64) by (bit_vector);
}

/// Storing a page-aligned address below the frame limit gives that address
/// back and leaves the attribute bits as they were.
pub proof fn lemma_frame_after_store(entry: Entry, phys: u64, bit: usize)
    requires
        phys < FRAME_LIMIT,
        phys % 4096 == 0,
        bit < 12 || 51 <= bit < 64,
    ensures
        entry.with_frame(phys).frame() == phys,
        entry.with_frame(phys).flag(bit) == entry.flag(bit),
{
    let v: u64 = entry.0;
    let b: u64 = bit as u64;
    assert(phys < 0x0008_0000_0000_0000u64 && phys % 4096 == 0 ==> ((v
        & !0x0007_ffff_ffff_f000u64) | (phys & 0x0007_ffff_ffff_f000u64))
        & 0x0007_ffff_ffff_f000u64 == phys) by (bit_vector);
    assert((b < 12 || (51 <= b && b < 64)) ==> ((((v & !0x0007_ffff_ffff_f000u64) | (phys
        & 0x0007_ffff_ffff_f000u64)) & (1u64 << b)) != 0) == ((v & (1u64 << b)) != 0))
        by (bit_vector);
}

/// Setting the cachability twice is setting it once, and the uncached bit is
/// then the opposite of what was asked for.
pub proof fn lemma_cachability_idempotent(entry: Entry, is_cachable: bool)
    ensures
        entry.with_cachability(is_cachable).with_cachability(is_cachable)
            == entry.with_cachability(is_cachable),
        entry.with_cachability(is_cachable).with_cachability(is_cachable).flag(UNCACHED)
            == !is_cachable,
{
    let v: u64 = entry.0;
    assert(((v | (1u64 << 4u64)) | (1u64 << 4u64)) == (v | (1u64 << 4u64)) && ((v & !(1u64
        << 4u64)) & !(1u64 << 4u64)) == (v & !(1u64 << 4u64))) by (bit_vector);
    lemma_flag_after_set(entry, UNCACHED, !is_cachable, UNCACHED);
}

} // verus!
