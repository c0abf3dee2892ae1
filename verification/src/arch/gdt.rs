//! The global descriptor table.
//!
//! Slot 0 is the null descriptor. Slots 1 to 4 are the kernel's code and data
//! segments and the user's code and data segments, reached by the selectors
//! 0x08, 0x10, 0x18 and 0x20. Behind them stands one task state segment
//! descriptor for each processor, two slots wide.

use crate::arch::tss::{tss_selector, TSS_SIZE};
use crate::bits::{bits_of_u64, get_bits_u64, set_bits_u64, with_bits_u64};
use vstd::prelude::*;

verus! {

/// Set by the processor once the segment has been used.
pub const ACCESSED: u64 = 1 << 40;

/// The segment can be written (data) or read (code).
pub const WRITABLE: u64 = 1 << 41;

/// The segment conforms (code) or grows down (data).
pub const CONFORMING: u64 = 1 << 42;

/// The segment holds code.
pub const EXECUTABLE: u64 = 1 << 43;

/// The segment is a code or data segment, not a system segment.
pub const USER_SEGMENT: u64 = 1 << 44;

/// The segment is for ring 3.
pub const DPL_RING_3: u64 = 3 << 45;

/// The segment is present.
pub const PRESENT: u64 = 1 << 47;

/// Free for the operating system.
pub const AVAILABLE: u64 = 1 << 52;

/// The segment holds 64-bit code.
pub const LONG_MODE: u64 = 1 << 53;

/// Operands are 32 bits wide.
pub const DEFAULT_SIZE: u64 = 1 << 54;

/// The limit counts pages.
pub const GRANULARITY: u64 = 1 << 55;

/// Bits 0 to 15 of the limit.
pub const LIMIT_0_15: u64 = 0xFFFF;

/// Bits 16 to 19 of the limit.
pub const LIMIT_16_19: u64 = 0xF << 48;

/// Bits 0 to 23 of the base.
pub const BASE_0_23: u64 = 0xFF_FFFF << 16;

/// Bits 24 to 31 of the base.
pub const BASE_24_31: u64 = 0xFF << 56;

/// What all four code and data segments share.
pub const COMMON: u64 = USER_SEGMENT | PRESENT | WRITABLE | ACCESSED | LIMIT_0_15 | LIMIT_16_19
    | BASE_0_23 | BASE_24_31 | GRANULARITY;

pub const KERNEL_CODE: u64 = COMMON | LONG_MODE | EXECUTABLE;

pub const KERNEL_DATA: u64 = COMMON | DEFAULT_SIZE;

pub const USER_CODE: u64 = KERNEL_CODE | DPL_RING_3;

pub const USER_DATA: u64 = KERNEL_DATA | DPL_RING_3;

/// The selector of the kernel's code segment.
pub const KERNEL_CODE_SELECTOR: u16 = 0x08;

/// The selector of the kernel's data segment.
pub const KERNEL_DATA_SELECTOR: u16 = 0x10;

/// The selector of the user's code segment.
pub const USER_CODE_SELECTOR: u16 = 0x18;

/// The selector of the user's data segment.
pub const USER_DATA_SELECTOR: u16 = 0x20;

/// What the processor's table register is loaded with: the address of a
/// table and the number of its last byte.
#[derive(Debug, Clone, Copy, PartialEq, Eq, Structural)]
pub struct DescriptorTableRegister {
    pub size: u16,
    pub address: u64,
}

/// One slot of the table.
#[derive(Debug, Clone, Copy, PartialEq, Eq, Structural)]
pub struct Entry(pub u64);

/// A descriptor: one slot for a code or data segment, two for a system
/// segment.
#[derive(Debug, Clone, Copy, PartialEq, Eq, Structural)]
pub enum Descriptor {
    UserSegment(u64),
    SystemSegment(u64, u64),
}

/// The number of slots that `descriptor` takes.
pub open spec fn slots_of(descriptor: Descriptor) -> int {
    match descriptor {
        Descriptor::UserSegment(_) => 1,
        Descriptor::SystemSegment(_, _) => 2,
    }
}

/// The slots that `descriptor` takes, in order.
pub open spec fn entries_of(descriptor: Descriptor) -> Seq<Entry> {
    match descriptor {
        Descriptor::UserSegment(value) => seq![Entry(value)],
        Descriptor::SystemSegment(low, high) => seq![Entry(low), Entry(high)],
    }
}

/// The low slot of the descriptor of the task state segment at `address`:
/// present, of type "available 64-bit TSS", with the segment's last byte as
/// its limit and the low 32 bits of `address` as its base.
pub open spec fn tss_low(address: u64) -> u64 {
    PRESENT | (0b1001u64 << 40) | ((TSS_SIZE - 1) as u64) | ((address & 0xFF_FFFF) << 16) | (((
    address >> 24) & 0xFF) << 56)
}

/// The high slot of the descriptor of the task state segment at `address`:
/// the high 32 bits of `address`.
pub open spec fn tss_high(address: u64) -> u64 {
    address >> 32
}

impl Descriptor {
    pub fn kernel_code_segment() -> (r: Descriptor)
        ensures
            r == Descriptor::UserSegment(KERNEL_CODE),
    {
        Descriptor::UserSegment(KERNEL_CODE)
    }

    pub fn kernel_data_segment() -> (r: Descriptor)
        ensures
            r == Descriptor::UserSegment(KERNEL_DATA),
    {
        Descriptor::UserSegment(KERNEL_DATA)
    }

    pub fn user_code_segment() -> (r: Descriptor)
        ensures
            r == Descriptor::UserSegment(USER_CODE),
    {
        Descriptor::UserSegment(USER_CODE)
    }

    pub fn user_data_segment() -> (r: Descriptor)
        ensures
            r == Descriptor::UserSegment(USER_DATA),
    {
        Descriptor::UserSegment(USER_DATA)
    }

    /// The descriptor of the task state segment at `address`.
    pub fn task_state_segment(address: u64) -> (r: Descriptor)
        ensures
            r == Descriptor::SystemSegment(tss_low(address), tss_high(address)),
    {
        let base_low: u64 = get_bits_u64(address, 0, 24);
        let base_middle: u64 = get_bits_u64(address, 24, 32);
        let base_high: u64 = get_bits_u64(address, 32, 64);
        proof {
            lemma_tss_fields(address);
        }
        let mut low: u64 = PRESENT;
        low = set_bits_u64(low, 16, 40, base_low);
        low = set_bits_u64(low, 56, 64, base_middle);
        let high: u64 = set_bits_u64(0, 0, 32, base_high);
        low = set_bits_u64(low, 0, 16, (TSS_SIZE - 1) as u64);
        low = set_bits_u64(low, 40, 44, 0b1001);
        proof {
            lemma_tss_descriptor(address);
        }
        Descriptor::SystemSegment(low, high)
    }
}

/// The three parts of a base address fit the fields that take them.
proof fn lemma_tss_fields(address: u64)
    by (bit_vector)
    ensures
        (((((address << 40u64) >> 40u64) >> 0u64) << 40u64) >> 40u64) == ((address << 40u64)
            >> 40u64) >> 0u64,
        (((((address << 32u64) >> 32u64) >> 24u64) << 56u64) >> 56u64) == ((address << 32u64)
            >> 32u64) >> 24u64,
        (((((address << 0u64) >> 0u64) >> 32u64) << 32u64) >> 32u64) == ((address << 0u64)
            >> 0u64) >> 32u64,
        ((103u64 << 48u64) >> 48u64) == 103u64,
        ((0b1001u64 << 60u64) >> 60u64) == 0b1001u64,
{
}

/// Storing the fields one after the other gives the two slots of the
/// descriptor.
proof fn lemma_tss_descriptor(address: u64)
    ensures
        with_bits_u64(
            with_bits_u64(
                with_bits_u64(
                    with_bits_u64(PRESENT, 16, 40, bits_of_u64(address, 0, 24)),
                    56,
                    64,
                    bits_of_u64(address, 24, 32),
                ),
                0,
                16,
                103,
            ),
            40,
            44,
            0b1001,
        ) == tss_low(address),
        with_bits_u64(0, 0, 32, bits_of_u64(address, 32, 64)) == tss_high(address),
{
    let a: u64 = ((address << 40u64) >> 40u64) >> 0u64;
    let b: u64 = ((address << 32u64) >> 32u64) >> 24u64;
    let c: u64 = ((address << 0u64) >> 0u64) >> 32u64;
    let p: u64 = 1u64 << 47;
    let s1: u64 = (p & !((((!0u64) << 24u64) >> 24u64) >> 16u64 << 16u64)) | (a << 16u64);
    let s2: u64 = (s1 & !((((!0u64) << 0u64) >> 0u64) >> 56u64 << 56u64)) | (b << 56u64);
    let s3: u64 = (s2 & !((((!0u64) << 48u64) >> 48u64) >> 0u64 << 0u64)) | (103u64 << 0u64);
    let s4: u64 = (s3 & !((((!0u64) << 20u64) >> 20u64) >> 40u64 << 40u64)) | (0b1001u64
        << 40u64);
    let h: u64 = (0u64 & !((((!0u64) << 32u64) >> 32u64) >> 0u64 << 0u64)) | (c << 0u64);
    assert(s4 == (1u64 << 47) | (0b1001u64 << 40) | 103u64 | ((address & 0xFF_FFFF) << 16) | (((
    address >> 24) & 0xFF) << 56) && h == address >> 32) by (bit_vector)
        requires
            a == ((address << 40u64) >> 40u64) >> 0u64,
            b == ((address << 32u64) >> 32u64) >> 24u64,
            c == ((address << 0u64) >> 0u64) >> 32u64,
            p == 1u64 << 47,
            s1 == (p & !((((!0u64) << 24u64) >> 24u64) >> 16u64 << 16u64)) | (a << 16u64),
            s2 == (s1 & !((((!0u64) << 0u64) >> 0u64) >> 56u64 << 56u64)) | (b << 56u64),
            s3 == (s2 & !((((!0u64) << 48u64) >> 48u64) >> 0u64 << 0u64)) | (103u64 << 0u64),
            s4 == (s3 & !((((!0u64) << 20u64) >> 20u64) >> 40u64 << 40u64)) | (0b1001u64 << 40u64),
            h == (0u64 & !((((!0u64) << 32u64) >> 32u64) >> 0u64 << 0u64)) | (c << 0u64),
    ;
}

/// A table of at most `MAX` slots, of which the first `len` are in use.
pub struct GlobalDescriptorTable<const MAX: usize> {
    pub table: [Entry; MAX],
    pub len: usize,
}

impl<const MAX: usize> GlobalDescriptorTable<MAX> {
    pub open spec fn wf(&self) -> bool {
        1 <= self.len <= MAX
    }

    /// The slots that are in use.
    pub open spec fn entries(&self) -> Seq<Entry> {
        self.table@.take(self.len as int)
    }

    /// A table that holds the null descriptor only.
    pub fn empty() -> (r: Self)
        requires
            MAX >= 1,
        ensures
            r.wf(),
            r.len == 1,
            r.entries() == seq![Entry(0)],
            forall|i: int| 0 <= i < MAX ==> r.table@[i] == Entry(0),
    {
        let table = GlobalDescriptorTable { table: [Entry(0);MAX], len: 1 };
        proof {
            assert(table.entries() =~= seq![Entry(0)]);
        }
        table
    }

    /// Puts `descriptor` behind the slots that are in use.
    pub fn push(&mut self, descriptor: Descriptor)
        requires
            old(self).wf(),
            old(self).len + slots_of(descriptor) <= MAX,
        ensures
            final(self).wf(),
            final(self).len == old(self).len + slots_of(descriptor),
            final(self).entries() == old(self).entries() + entries_of(descriptor),
    {
        match descriptor {
            Descriptor::UserSegment(value) => {
                self.table[self.len] = Entry(value);
                self.len += 1;
            },
            Descriptor::SystemSegment(value_low, value_high) => {
                self.table[self.len] = Entry(value_low);
                self.len += 1;
                self.table[self.len] = Entry(value_high);
                self.len += 1;
            },
        }
        proof {
            assert(self.entries() =~= old(self).entries() + entries_of(descriptor));
        }
    }

    /// What the table register is to hold for this table at `address`.
    pub fn register(&self, address: u64) -> (r: DescriptorTableRegister)
        requires
            self.wf(),
            self.len * 8 - 1 <= u16::MAX,
        ensures
            r.address == address,
            r.size == self.len * 8 - 1,
    {
        DescriptorTableRegister { address, size: (self.len * 8 - 1) as u16 }
    }

    /// The table of a kernel with one task state segment for each of the
    /// processors: the null descriptor, the four code and data segments, and
    /// the descriptors of the segments at `tss_addresses`.
    pub fn standard(tss_addresses: &Vec<u64>) -> (r: Self)
        requires
            5 + 2 * tss_addresses@.len() <= MAX,
        ensures
            r.wf(),
            r.len == 5 + 2 * tss_addresses@.len(),
            r.table@[0] == Entry(0),
            r.table@[1] == Entry(KERNEL_CODE),
            r.table@[2] == Entry(KERNEL_DATA),
            r.table@[3] == Entry(USER_CODE),
            r.table@[4] == Entry(USER_DATA),
            forall|i: int|
                0 <= i < tss_addresses@.len() ==> r.table@[5 + 2 * i] == Entry(
                    tss_low(#[trigger] tss_addresses@[i]),
                ) && r.table@[6 + 2 * i] == Entry(tss_high(tss_addresses@[i])),
    {
        let mut gdt: Self = Self::empty();
        gdt.push(Descriptor::kernel_code_segment());
        gdt.push(Descriptor::kernel_data_segment());
        gdt.push(Descriptor::user_code_segment());
        gdt.push(Descriptor::user_data_segment());
        let mut i: usize = 0;
        assert(gdt.entries() =~= seq![
            Entry(0),
            Entry(KERNEL_CODE),
            Entry(KERNEL_DATA),
            Entry(USER_CODE),
            Entry(USER_DATA),
        ]);
        while i < tss_addresses.len()
            invariant
                i <= tss_addresses@.len(),
                5 + 2 * tss_addresses@.len() <= MAX,
                gdt.wf(),
                gdt.len == 5 + 2 * i,
                gdt.entries()[0] == Entry(0),
                gdt.entries()[1] == Entry(KERNEL_CODE),
                gdt.entries()[2] == Entry(KERNEL_DATA),
                gdt.entries()[3] == Entry(USER_CODE),
                gdt.entries()[4] == Entry(USER_DATA),
                forall|k: int|
                    0 <= k < i ==> gdt.entries()[5 + 2 * k] == Entry(
                        tss_low(#[trigger] tss_addresses@[k]),
                    ) && gdt.entries()[6 + 2 * k] == Entry(tss_high(tss_addresses@[k])),
            decreases tss_addresses@.len() - i,
        {
            let ghost before = gdt.entries();
            gdt.push(Descriptor::task_state_segment(tss_addresses[i]));
            proof {
                assert forall|k: int| 0 <= k < i + 1 implies gdt.entries()[5 + 2 * k] == Entry(
                    tss_low(#[trigger] tss_addresses@[k]),
                ) && gdt.entries()[6 + 2 * k] == Entry(tss_high(tss_addresses@[k])) by {
                    if k < i {
                        assert(gdt.entries()[5 + 2 * k] == before[5 + 2 * k]);
                        assert(gdt.entries()[6 + 2 * k] == before[6 + 2 * k]);
                    }
                }
            }
            i += 1;
        }
        gdt
    }
}

/// What loading the table takes: the table, the selector that the code
/// segment register is loaded with, and the selector for every data segment
/// register.
pub struct GdtSetup<const MAX: usize> {
    pub table: GlobalDescriptorTable<MAX>,
    pub code_selector: u16,
    pub data_selector: u16,
}

/// The kernel's table for the task state segments at `tss_addresses`, with
/// the kernel's code and data selectors for the segment registers.
pub fn init<const MAX: usize>(tss_addresses: &Vec<u64>) -> (r: GdtSetup<MAX>)
    requires
        5 + 2 * tss_addresses@.len() <= MAX,
    ensures
        r.code_selector == KERNEL_CODE_SELECTOR,
        r.data_selector == KERNEL_DATA_SELECTOR,
        r.table.wf(),
        r.table.len == 5 + 2 * tss_addresses@.len(),
        r.table.table@[0] == Entry(0),
        r.table.table@[1] == Entry(KERNEL_CODE),
        r.table.table@[2] == Entry(KERNEL_DATA),
        r.table.table@[3] == Entry(USER_CODE),
        r.table.table@[4] == Entry(USER_DATA),
        forall|i: int|
            0 <= i < tss_addresses@.len() ==> r.table.table@[5 + 2 * i] == Entry(
                tss_low(#[trigger] tss_addresses@[i]),
            ) && r.table.table@[6 + 2 * i] == Entry(tss_high(tss_addresses@[i])),
{
    GdtSetup {
        table: GlobalDescriptorTable::standard(tss_addresses),
        code_selector: KERNEL_CODE_SELECTOR,
        data_selector: KERNEL_DATA_SELECTOR,
    }
}

/// The four code and data segments stand in slots 1 to 4, and the task state
/// segment of processor `cpu_id` starts in slot `5 + 2 * cpu_id`: a selector
/// is eight times the number of its slot.
pub proof fn lemma_layout(cpu_id: u32)
    ensures
        KERNEL_CODE_SELECTOR == 8 * 1,
        KERNEL_DATA_SELECTOR == 8 * 2,
        USER_CODE_SELECTOR == 8 * 3,
        USER_DATA_SELECTOR == 8 * 4,
        tss_selector(cpu_id) == 8 * (5 + 2 * cpu_id),
{
}

} // verus!
