//! The I/O APICs: their register window and their redirection entries.
//!
//! An I/O APIC shows two registers in memory: the index of a register is
//! written to the first, and the register is then read or written through the
//! second, 16 bytes on. Redirection entries start at index 0x10 and take two
//! registers each.

use crate::acpi::IoApicEntry;
use crate::layout::MIN_PAGE_SIZE;
use crate::memory::align_down;
use crate::paging::memory::{MapError, MemoryView, PhysicalMemory};
use crate::paging::table::PageTable;
use vstd::prelude::*;

verus! {

/// The most I/O APICs that are taken from the tables.
pub const MAX_IO_APIC_COUNT: usize = 128;

/// The index of the first redirection register.
pub const REDIRECTION_BASE: u32 = 0x10;

/// Bit 16 of a redirection entry: the interrupt is masked.
pub const MASKED: u32 = 1 << 16;

/// Bit 11 of a redirection entry: the destination is a logical one.
pub const LOGICAL_DESTINATION: u32 = 1 << 11;

/// Bits 8 to 10 of a redirection entry: how the interrupt is delivered; 0
/// is "fixed".
pub const DELIVERY_MODE: u32 = 0x700;

/// Bits 0 to 7 of a redirection entry: the interrupt vector.
pub const VECTOR: u32 = 0xff;

/// Bits 24 to 31 of the high word of a redirection entry: the local APIC
/// that gets the interrupt.
pub const DESTINATION: u32 = 0xff000000;

/// One 32-bit value to be written to a device register in memory.
#[derive(Debug, Clone, Copy, PartialEq, Eq, Structural)]
pub struct MmioWrite {
    pub address: usize,
    pub value: u32,
}

/// A read of a register through the window: `select` is written first, and
/// the value is then read from `data_address`.
#[derive(Debug, Clone, Copy, PartialEq, Eq, Structural)]
pub struct RegisterRead {
    pub select: MmioWrite,
    pub data_address: usize,
}

/// A write of a register through the window: `select` is written first,
/// then `data`.
#[derive(Debug, Clone, Copy, PartialEq, Eq, Structural)]
pub struct RegisterWrite {
    pub select: MmioWrite,
    pub data: MmioWrite,
}

/// The I/O APIC whose window starts at the virtual address held.
#[derive(Debug, Clone, Copy, PartialEq, Eq, Structural)]
pub struct IoApic(pub usize);

/// The low word of a redirection entry once it is set up for `vector`: not
/// masked, physical destination, fixed delivery.
pub open spec fn redirection_low(low: u32, vector: u32) -> u32 {
    ((((low & !MASKED) & !LOGICAL_DESTINATION) & !DELIVERY_MODE) & !VECTOR) | vector
}

/// The high word of a redirection entry once its destination is the local
/// APIC `lapic_id`.
pub open spec fn redirection_high(high: u32, lapic_id: u32) -> u32 {
    (high & !DESTINATION) | (lapic_id << 24)
}

/// What mapping one I/O APIC takes: the page to map, and the I/O APIC as it
/// is then reached.
#[derive(Debug, Clone, Copy, PartialEq, Eq, Structural)]
pub struct IoApicMapping {
    pub page_virt: usize,
    pub page_phys: usize,
    pub io_apic: IoApic,
}

impl IoApic {
    pub fn new(address: usize) -> (r: IoApic)
        ensures
            r == IoApic(address),
    {
        IoApic(address)
    }

    /// The read of register `index`.
    pub fn read(&self, index: u32) -> (r: RegisterRead)
        requires
            self.0 + 0x10 <= usize::MAX,
        ensures
            r == (RegisterRead {
                select: MmioWrite { address: self.0, value: index },
                data_address: (self.0 + 0x10) as usize,
            }),
    {
        RegisterRead {
            select: MmioWrite { address: self.0, value: index },
            data_address: self.0 + 0x10,
        }
    }

    /// The write of `value` to register `index`.
    pub fn write(&self, index: u32, value: u32) -> (r: RegisterWrite)
        requires
            self.0 + 0x10 <= usize::MAX,
        ensures
            r == (RegisterWrite {
                select: MmioWrite { address: self.0, value: index },
                data: MmioWrite { address: (self.0 + 0x10) as usize, value },
            }),
    {
        RegisterWrite {
            select: MmioWrite { address: self.0, value: index },
            data: MmioWrite { address: self.0 + 0x10, value },
        }
    }

    /// The read of the identification register.
    pub fn id(&self) -> (r: RegisterRead)
        requires
            self.0 + 0x10 <= usize::MAX,
        ensures
            r.select == (MmioWrite { address: self.0, value: 0 }),
            r.data_address == self.0 + 0x10,
    {
        self.read(0x0)
    }

    /// The read of the version register.
    pub fn version(&self) -> (r: RegisterRead)
        requires
            self.0 + 0x10 <= usize::MAX,
        ensures
            r.select == (MmioWrite { address: self.0, value: 1 }),
            r.data_address == self.0 + 0x10,
    {
        self.read(0x1)
    }

    /// The read of the arbitration register.
    pub fn arbitration_id(&self) -> (r: RegisterRead)
        requires
            self.0 + 0x10 <= usize::MAX,
        ensures
            r.select == (MmioWrite { address: self.0, value: 2 }),
            r.data_address == self.0 + 0x10,
    {
        self.read(0x2)
    }

    /// The write that lets interrupt line `ioapic_irq` through, given the
    /// low word `current` of its redirection entry: bit 16 is cleared.
    pub fn irq_enable(&self, ioapic_irq: u32, current: u32) -> (r: RegisterWrite)
        requires
            self.0 + 0x10 <= usize::MAX,
            0x10 + 2 * ioapic_irq <= u32::MAX,
        ensures
            r.select == (MmioWrite { address: self.0, value: (0x10 + 2 * ioapic_irq) as u32 }),
            r.data == (MmioWrite { address: (self.0 + 0x10) as usize, value: current & !MASKED }),
    {
        let irq_reg: u32 = 0x10 + (2 * ioapic_irq);
        self.write(irq_reg, current & !(1 << 16))
    }

    /// The write that masks interrupt line `ioapic_irq`, given the low word
    /// `current` of its redirection entry: bit 16 is set.
    pub fn irq_disable(&self, ioapic_irq: u32, current: u32) -> (r: RegisterWrite)
        requires
            self.0 + 0x10 <= usize::MAX,
            0x10 + 2 * ioapic_irq <= u32::MAX,
        ensures
            r.select == (MmioWrite { address: self.0, value: (0x10 + 2 * ioapic_irq) as u32 }),
            r.data == (MmioWrite { address: (self.0 + 0x10) as usize, value: current | MASKED }),
    {
        let irq_reg: u32 = 0x10 + (2 * ioapic_irq);
        self.write(irq_reg, current | (1 << 16))
    }

    /// The two writes that send interrupt line `ioapic_irq` to the local
    /// APIC `lapic_id` as vector `irq_vector`, given the two words `low` and
    /// `high` of its redirection entry. The high word is written first, so
    /// that the entry is never live with a destination that is out of date.
    pub fn irq_set(
        &self,
        ioapic_irq: u32,
        lapic_id: u32,
        irq_vector: u32,
        low: u32,
        high: u32,
    ) -> (r: [RegisterWrite; 2])
        requires
            self.0 + 0x10 <= usize::MAX,
            0x11 + 2 * ioapic_irq <= u32::MAX,
        ensures
            r@.len() == 2,
            r@[0].select == (MmioWrite { address: self.0, value: (0x11 + 2 * ioapic_irq) as u32 }),
            r@[0].data == (MmioWrite {
                address: (self.0 + 0x10) as usize,
                value: redirection_high(high, lapic_id),
            }),
            r@[1].select == (MmioWrite { address: self.0, value: (0x10 + 2 * ioapic_irq) as u32 }),
            r@[1].data == (MmioWrite {
                address: (self.0 + 0x10) as usize,
                value: redirection_low(low, irq_vector),
            }),
    {
        let low_reg: u32 = 0x10 + (2 * ioapic_irq);
        let high_reg: u32 = low_reg + 1;
        let mut low: u32 = low;
        let mut high: u32 = high;
        low &= !(1 << 16);
        low &= !(1 << 11);
        low &= !0x700;
        low &= !0xff;
        low |= irq_vector;
        high &= !0xff000000;
        high |= lapic_id << 24;
        [self.write(high_reg, high), self.write(low_reg, low)]
    }
}

/// What the redirection entry holds once it is set: where the vector and the
/// destination are a byte each, the vector stands in the low byte, the line
/// is not masked, the destination is physical and the delivery fixed; the
/// local APIC's id stands in the high byte of the high word; and no other
/// bit has changed.
pub proof fn lemma_redirection_fields(low: u32, high: u32, lapic_id: u32, vector: u32)
    requires
        vector <= 0xff,
        lapic_id <= 0xff,
    ensures
        redirection_low(low, vector) & VECTOR == vector,
        redirection_low(low, vector) & MASKED == 0,
        redirection_low(low, vector) & LOGICAL_DESTINATION == 0,
        redirection_low(low, vector) & DELIVERY_MODE == 0,
        redirection_low(low, vector) & !(VECTOR | MASKED | LOGICAL_DESTINATION | DELIVERY_MODE)
            == low & !(VECTOR | MASKED | LOGICAL_DESTINATION | DELIVERY_MODE),
        redirection_high(high, lapic_id) >> 24 == lapic_id,
        redirection_high(high, lapic_id) & !DESTINATION == high & !DESTINATION,
{
    assert(vector <= 0xff ==> (((((low & !(1u32 << 16)) & !(1u32 << 11)) & !0x700u32) & !0xffu32)
        | vector) & 0xffu32 == vector && (((((low & !(1u32 << 16)) & !(1u32 << 11)) & !0x700u32)
        & !0xffu32) | vector) & (1u32 << 16) == 0 && (((((low & !(1u32 << 16)) & !(1u32 << 11))
        & !0x700u32) & !0xffu32) | vector) & (1u32 << 11) == 0 && (((((low & !(1u32 << 16)) & !(
    1u32 << 11)) & !0x700u32) & !0xffu32) | vector) & 0x700u32 == 0 && (((((low & !(1u32 << 16))
        & !(1u32 << 11)) & !0x700u32) & !0xffu32) | vector) & !(0xffu32 | (1u32 << 16) | (1u32
        << 11) | 0x700u32) == low & !(0xffu32 | (1u32 << 16) | (1u32 << 11) | 0x700u32))
        by (bit_vector);
    assert(lapic_id <= 0xff ==> ((high & !0xff000000u32) | (lapic_id << 24)) >> 24 == lapic_id && (
    (high & !0xff000000u32) | (lapic_id << 24)) & !0xff000000u32 == high & !0xff000000u32)
        by (bit_vector);
}

/// The page that holds the registers of the device at the physical address
/// `phys`, and where the kernel reaches it.
pub open spec fn device_page(phys: int, hhdm_offset: int) -> (usize, usize) {
    (
        ((phys + hhdm_offset) - (phys + hhdm_offset) % (MIN_PAGE_SIZE as int)) as usize,
        (phys - phys % (MIN_PAGE_SIZE as int)) as usize,
    )
}

/// Where the I/O APIC that the table entry `entry` names is to be mapped and
/// how it is reached then.
pub fn mapping_of(entry: &IoApicEntry, hhdm_offset: usize) -> (r: IoApicMapping)
    requires
        entry.physical_address + hhdm_offset + 0x10 <= usize::MAX,
    ensures
        r.io_apic == IoApic((entry.physical_address + hhdm_offset) as usize),
        (r.page_virt, r.page_phys) == device_page(
            entry.physical_address as int,
            hhdm_offset as int,
        ),
{
    let phys: usize = entry.physical_address as usize;
    let virt: usize = phys + hhdm_offset;
    IoApicMapping {
        page_virt: align_down(virt, MIN_PAGE_SIZE),
        page_phys: align_down(phys, MIN_PAGE_SIZE),
        io_apic: IoApic::new(virt),
    }
}

/// Why the I/O APICs could not be brought up.
#[derive(Debug, Clone, Copy, PartialEq, Eq, Structural)]
pub enum IoApicError {
    /// The tables name no I/O APIC.
    NoneFound,
    /// The registers of an I/O APIC could not be mapped.
    Unmappable(MapError),
}

/// The memory, the pages to be dropped from the TLB and the reason for
/// giving up, if any, after the register pages of the I/O APICs `entries`
/// have been mapped one after the other under the root in page `root`. The
/// first page that cannot be mapped ends it.
pub open spec fn mapped_io_apics(
    view: MemoryView,
    invalidated: Seq<usize>,
    root: int,
    entries: Seq<IoApicEntry>,
) -> (MemoryView, Seq<usize>, Option<MapError>)
    decreases entries.len(),
{
    if entries.len() == 0 {
        (view, invalidated, None)
    } else {
        let before = mapped_io_apics(view, invalidated, root, entries.drop_last());
        let page = device_page(entries.last().physical_address as int, view.hhdm);
        let outcome = before.0.after_map_device(root, page.0, page.1);
        if before.2.is_some() {
            before
        } else {
            (
                outcome.0,
                if outcome.1 {
                    before.1.push(page.0)
                } else {
                    before.1
                },
                outcome.2,
            )
        }
    }
}

/// How many of `count` I/O APICs are taken.
pub open spec fn taken(count: nat) -> nat {
    if count < MAX_IO_APIC_COUNT {
        count
    } else {
        MAX_IO_APIC_COUNT as nat
    }
}

/// Maps the registers of the first `MAX_IO_APIC_COUNT` I/O APICs that the
/// tables name, each page through the direct map and as device memory, and
/// returns the I/O APICs as they are reached then, in the tables' order.
/// Gives up where the tables name none, and at the first page that cannot be
/// mapped; the pages before it stay mapped.
pub fn init(memory: &mut PhysicalMemory, root: usize, entries: &Vec<IoApicEntry>) -> (r: Result<
    Vec<IoApic>,
    IoApicError,
>)
    requires
        old(memory).wf(),
        old(memory).view().level_at(root as int) == 4,
        forall|i: int|
            0 <= i < entries@.len() ==> (#[trigger] entries@[i]).physical_address + old(
                memory,
            ).hhdm_offset + 0x10 <= usize::MAX,
    ensures
        final(memory).wf(),
        final(memory).same_place(old(memory)),
        final(memory).view().level_at(root as int) == 4,
        ({
            let view = old(memory).view();
            let outcome = mapped_io_apics(
                view,
                old(memory).invalidated@,
                view.frame_of(root as int),
                entries@.take(taken(entries@.len()) as int),
            );
            &&& final(memory).view() == outcome.0
            &&& final(memory).invalidated@ == outcome.1
            &&& match r {
                Ok(io_apics) => {
                    &&& outcome.2.is_none()
                    &&& entries@.len() > 0
                    &&& io_apics@.len() == taken(entries@.len())
                    &&& forall|i: int|
                        0 <= i < io_apics@.len() ==> #[trigger] io_apics@[i] == IoApic(
                            (entries@[i].physical_address + view.hhdm) as usize,
                        )
                },
                Err(IoApicError::Unmappable(error)) => outcome.2 == Some(error),
                Err(IoApicError::NoneFound) => entries@.len() == 0,
            }
        }),
{
    let ghost view = memory.view();
    let ghost top = view.frame_of(root as int);
    let ghost start = memory.invalidated@;
    let hhdm_offset: usize = memory.hhdm_offset;
    let mut io_apics: Vec<IoApic> = Vec::new();
    let mut i: usize = 0;
    proof {
        assert(entries@.take(0) =~= Seq::<IoApicEntry>::empty());
    }
    while i < entries.len() && i < MAX_IO_APIC_COUNT
        invariant
            i <= entries@.len(),
            i <= MAX_IO_APIC_COUNT,
            io_apics@.len() == i,
            view == old(memory).view(),
            start == old(memory).invalidated@,
            hhdm_offset == view.hhdm,
            top == view.frame_of(root as int),
            memory.wf(),
            memory.same_place(old(memory)),
            memory.view().level_at(root as int) == 4,
            memory.view().frame_of(root as int) == top,
            (memory.view(), memory.invalidated@, None::<MapError>) == mapped_io_apics(
                view,
                start,
                top,
                entries@.take(i as int),
            ),
            forall|k: int|
                0 <= k < entries@.len() ==> (#[trigger] entries@[k]).physical_address + hhdm_offset
                    + 0x10 <= usize::MAX,
            forall|k: int|
                0 <= k < i ==> #[trigger] io_apics@[k] == IoApic(
                    (entries@[k].physical_address + hhdm_offset) as usize,
                ),
        decreases entries@.len() - i,
    {
        let mapping = mapping_of(&entries[i], hhdm_offset);
        proof {
            assert(entries@.take(i + 1).drop_last() =~= entries@.take(i as int));
            assert(entries@.take(i + 1).last() == entries@[i as int]);
        }
        let ghost before = memory.view();
        match PageTable::map_device(memory, root, mapping.page_virt, mapping.page_phys) {
            Err(error) => {
                proof {
                    assert(before.frame_of(root as int) == top);
                    assert(mapped_io_apics(view, start, top, entries@.take(i + 1)) == (
                        memory.view(),
                        memory.invalidated@,
                        Some(error),
                    ));
                    lemma_mapping_stopped(
                        view,
                        start,
                        top,
                        entries@,
                        i + 1,
                        taken(entries@.len()) as int,
                    );
                }
                return Err(IoApicError::Unmappable(error));
            },
            Ok(()) => {
                proof {
                    assert(before.frame_of(root as int) == top);
                }
            },
        }
        io_apics.push(mapping.io_apic);
        i += 1;
    }
    if io_apics.len() == 0 {
        Err(IoApicError::NoneFound)
    } else {
        Ok(io_apics)
    }
}

/// Once a page could not be mapped, the I/O APICs behind it change nothing.
proof fn lemma_mapping_stopped(
    view: MemoryView,
    invalidated: Seq<usize>,
    root: int,
    entries: Seq<IoApicEntry>,
    stopped: int,
    all: int,
)
    requires
        0 <= stopped <= all <= entries.len(),
        mapped_io_apics(view, invalidated, root, entries.take(stopped)).2.is_some(),
    ensures
        mapped_io_apics(view, invalidated, root, entries.take(all)) == mapped_io_apics(
            view,
            invalidated,
            root,
            entries.take(stopped),
        ),
    decreases all - stopped,
{
    if stopped < all {
        lemma_mapping_stopped(view, invalidated, root, entries, stopped, all - 1);
        assert(entries.take(all).drop_last() =~= entries.take(all - 1));
    }
}

} // verus!
