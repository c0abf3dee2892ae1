//! The interrupt descriptor table.
//!
//! The table has 256 gates of 16 bytes. A gate holds the address of its
//! handler in three parts, the selector of the code segment that the handler
//! runs in, and options: whether the entry is present, and which interrupt
//! stack the handler gets.

use crate::arch::gdt::DescriptorTableRegister;
use crate::bits::{set_bit_u16, set_bits_u16, with_bit_u16, with_bits_u16};
use vstd::prelude::*;

verus! {

/// The number of gates.
pub const GATE_COUNT: usize = 256;

/// The bytes of a gate.
pub const GATE_SIZE: usize = 16;

/// The option bits of a gate that is not present: bits 9 to 11 are set, which
/// makes it an interrupt gate.
pub const MINIMAL_OPTIONS: u16 = 0b1110_0000_0000;

/// The vector of the double fault, whose handler runs on interrupt stack 1.
pub const DOUBLE_FAULT_VECTOR: usize = 8;

/// The vector of the local APIC's timer.
pub const TIMER_VECTOR: usize = 32;

#[derive(Debug, PartialEq, Eq, Clone, Copy, Structural)]
pub struct EntryOptions {
    pub cs: u16,
    pub bits: u16,
}

#[derive(Debug, PartialEq, Eq, Clone, Copy, Structural)]
pub struct Entry {
    pub address_low: u16,
    pub options: EntryOptions,
    pub address_middle: u16,
    pub address_high: u32,
    pub reserved: u32,
}

/// The options of a present gate in the kernel's code segment.
pub open spec fn present_options(options: EntryOptions) -> EntryOptions {
    EntryOptions { cs: 0x08, bits: with_bit_u16(options.bits, 15, true) }
}

/// `entry` as a present gate for the handler at `address`.
pub open spec fn gate_for(entry: Entry, address: u64) -> Entry {
    Entry {
        address_low: address as u16,
        options: present_options(entry.options),
        address_middle: (address >> 16) as u16,
        address_high: (address >> 32) as u32,
        reserved: entry.reserved,
    }
}

/// The handler address that a gate names.
pub open spec fn handler_of(entry: Entry) -> u64 {
    (entry.address_low as u64) | ((entry.address_middle as u64) << 16) | ((
    entry.address_high as u64) << 32)
}

impl EntryOptions {
    /// The options of a gate that is not present.
    pub fn minimal() -> (r: EntryOptions)
        ensures
            r == (EntryOptions { cs: 0, bits: MINIMAL_OPTIONS }),
    {
        EntryOptions { cs: 0, bits: 0b1110_0000_0000 }
    }

    /// Bit 15: whether the entry is present.
    pub fn set_present(&mut self, value: bool) -> (ret: &mut Self)
        ensures
            *ret == (EntryOptions { cs: old(self).cs, bits: with_bit_u16(old(self).bits, 15, value) }),
            *final(self) == *final(ret),
    {
        self.bits = set_bit_u16(self.bits, 15, value);
        self
    }

    pub fn set_code_selector(&mut self, cs: u16) -> (ret: &mut Self)
        ensures
            *ret == (EntryOptions { cs, bits: old(self).bits }),
            *final(self) == *final(ret),
    {
        self.cs = cs;
        self
    }

    /// Bits 0 to 2: the interrupt stack that the handler gets, counted from
    /// 1; `index` counts from 0.
    pub fn set_stack_index(&mut self, index: u16) -> (ret: &mut Self)
        requires
            index < 7,
        ensures
            *ret == (EntryOptions {
                cs: old(self).cs,
                bits: with_bits_u16(old(self).bits, 0, 3, (index + 1) as u16),
            }),
            ret.bits & 0b111 == index + 1,
            ret.bits & !0b111u16 == old(self).bits & !0b111u16,
            *final(self) == *final(ret),
    {
        proof {
            lemma_stack_index(self.bits, (index + 1) as u16);
        }
        self.bits = set_bits_u16(self.bits, 0, 3, index + 1);
        self
    }
}

/// A number from 1 to 7 fits three bits, and storing it in bits 0 to 2
/// leaves the other bits as they were.
proof fn lemma_stack_index(bits: u16, stack: u16)
    by (bit_vector)
    requires
        1 <= stack <= 7,
    ensures
        (stack << 13u16) >> 13u16 == stack,
        ((bits & !((((!0u16) << 13u16) >> 13u16) >> 0u16 << 0u16)) | (stack << 0u16)) & 0b111u16
            == stack,
        ((bits & !((((!0u16) << 13u16) >> 13u16) >> 0u16 << 0u16)) | (stack << 0u16)) & !0b111u16
            == bits & !0b111u16,
{
}

impl Entry {
    /// A gate that is not present and names no handler.
    pub fn empty() -> (r: Entry)
        ensures
            r == (Entry {
                address_low: 0,
                options: EntryOptions { cs: 0, bits: MINIMAL_OPTIONS },
                address_middle: 0,
                address_high: 0,
                reserved: 0,
            }),
    {
        Entry {
            address_low: 0,
            address_middle: 0,
            address_high: 0,
            reserved: 0,
            options: EntryOptions::minimal(),
        }
    }

    /// Makes this a present gate for the handler at `address` in the
    /// kernel's code segment, and returns its options for the interrupt
    /// stack to be chosen.
    pub fn set_handler_address(&mut self, address: u64) -> (ret: &mut EntryOptions)
        ensures
            *ret == present_options(old(self).options),
            *final(self) == (Entry { options: *final(ret), ..gate_for(*old(self), address) }),
            handler_of(gate_for(*old(self), address)) == address,
    {
        proof {
            lemma_handler_parts(address);
        }
        self.address_low = address as u16;
        self.address_middle = (address >> 16) as u16;
        self.address_high = (address >> 32) as u32;
        self.options.set_code_selector(0x08).set_present(true)
    }
}

/// The three parts of a handler address make up the address.
proof fn lemma_handler_parts(address: u64)
    by (bit_vector)
    ensures
        ((address as u16) as u64) | ((((address >> 16u64) as u16) as u64) << 16u64) | ((((address
            >> 32u64) as u32) as u64) << 32u64) == address,
{
}

/// The addresses of the handlers that the kernel installs.
#[derive(Debug, Clone, Copy, PartialEq, Eq, Structural)]
pub struct Handlers {
    pub division_error: u64,
    pub debug: u64,
    pub breakpoint: u64,
    pub overflow: u64,
    pub bound_range_exceeded: u64,
    pub invalid_opcode: u64,
    pub device_not_available: u64,
    pub double_fault: u64,
    pub segmentation_fault: u64,
    pub general_protection_fault: u64,
    pub page_fault: u64,
    pub x87_floating_point_exception: u64,
    pub alignment_check: u64,
    pub machine_check: u64,
    pub simd_floating_point_exception: u64,
    pub virtualization_exception: u64,
    pub control_protection_exception: u64,
    pub hypervisor_injection_exception: u64,
    pub vmm_communication_exception: u64,
    pub security_exception: u64,
    pub timer_tick: u64,
}

/// The handler of `vector`, for the vectors that have one.
pub open spec fn handler_for(handlers: Handlers, vector: int) -> Option<u64> {
    if vector == 0 {
        Some(handlers.division_error)
    } else if vector == 1 {
        Some(handlers.debug)
    } else if vector == 3 {
        Some(handlers.breakpoint)
    } else if vector == 4 {
        Some(handlers.overflow)
    } else if vector == 5 {
        Some(handlers.bound_range_exceeded)
    } else if vector == 6 {
        Some(handlers.invalid_opcode)
    } else if vector == 7 {
        Some(handlers.device_not_available)
    } else if vector == 8 {
        Some(handlers.double_fault)
    } else if vector == 10 || vector == 11 || vector == 12 {
        Some(handlers.segmentation_fault)
    } else if vector == 13 {
        Some(handlers.general_protection_fault)
    } else if vector == 14 {
        Some(handlers.page_fault)
    } else if vector == 16 {
        Some(handlers.x87_floating_point_exception)
    } else if vector == 17 {
        Some(handlers.alignment_check)
    } else if vector == 18 {
        Some(handlers.machine_check)
    } else if vector == 19 {
        Some(handlers.simd_floating_point_exception)
    } else if vector == 20 {
        Some(handlers.virtualization_exception)
    } else if vector == 21 {
        Some(handlers.control_protection_exception)
    } else if vector == 28 {
        Some(handlers.hypervisor_injection_exception)
    } else if vector == 29 {
        Some(handlers.vmm_communication_exception)
    } else if vector == 30 {
        Some(handlers.security_exception)
    } else if vector == 32 {
        Some(handlers.timer_tick)
    } else {
        None
    }
}

/// The entry of `vector` in the kernel's table: present with its handler
/// where it has one, on interrupt stack 1 for the double fault; empty
/// otherwise.
pub open spec fn gate_of(handlers: Handlers, vector: int) -> Entry {
    let blank = Entry {
        address_low: 0,
        options: EntryOptions { cs: 0, bits: MINIMAL_OPTIONS },
        address_middle: 0,
        address_high: 0,
        reserved: 0,
    };
    match handler_for(handlers, vector) {
        None => blank,
        Some(address) => {
            let gate = gate_for(blank, address);
            if vector == DOUBLE_FAULT_VECTOR {
                Entry {
                    options: EntryOptions {
                        cs: gate.options.cs,
                        bits: with_bits_u16(gate.options.bits, 0, 3, 1),
                    },
                    ..gate
                }
            } else {
                gate
            }
        },
    }
}

pub struct InterruptDescriptorTable {
    pub table: Vec<Entry>,
}

impl InterruptDescriptorTable {
    pub open spec fn wf(&self) -> bool {
        self.table@.len() == GATE_COUNT
    }

    /// A table of which no gate is present.
    pub fn empty() -> (r: InterruptDescriptorTable)
        ensures
            r.wf(),
            forall|i: int| 0 <= i < GATE_COUNT ==> #[trigger] r.table@[i] == (Entry {
                address_low: 0,
                options: EntryOptions { cs: 0, bits: MINIMAL_OPTIONS },
                address_middle: 0,
                address_high: 0,
                reserved: 0,
            }),
    {
        let mut table: Vec<Entry> = Vec::new();
        let mut i: usize = 0;
        while i < GATE_COUNT
            invariant
                i <= GATE_COUNT,
                table@.len() == i,
                forall|k: int| 0 <= k < i ==> #[trigger] table@[k] == (Entry {
                    address_low: 0,
                    options: EntryOptions { cs: 0, bits: MINIMAL_OPTIONS },
                    address_middle: 0,
                    address_high: 0,
                    reserved: 0,
                }),
            decreases GATE_COUNT - i,
        {
            table.push(Entry::empty());
            i += 1;
        }
        InterruptDescriptorTable { table }
    }

    /// What the table register is to hold for this table at `address`.
    pub fn register(&self, address: u64) -> (r: DescriptorTableRegister)
        ensures
            r == (DescriptorTableRegister { address, size: 4095 }),
    {
        DescriptorTableRegister { address, size: (GATE_COUNT * GATE_SIZE - 1) as u16 }
    }

    /// Makes gate `vector` a present gate for the handler at `address`.
    pub fn set_handler(&mut self, vector: usize, address: u64)
        requires
            old(self).wf(),
            vector < GATE_COUNT,
        ensures
            final(self).wf(),
            final(self).table@ == old(self).table@.update(
                vector as int,
                gate_for(old(self).table@[vector as int], address),
            ),
    {
        let mut entry: Entry = self.table[vector];
        entry.set_handler_address(address);
        self.table[vector] = entry;
    }
}

/// The kernel's table: a gate for each fault that has a handler, the
/// double fault on interrupt stack 1, and the timer at vector 32.
pub fn load(handlers: &Handlers) -> (r: InterruptDescriptorTable)
    ensures
        r.wf(),
        forall|vector: int|
            0 <= vector < GATE_COUNT ==> #[trigger] r.table@[vector] == gate_of(
                *handlers,
                vector,
            ),
{
    let mut idt = InterruptDescriptorTable::empty();
    idt.set_handler(0, handlers.division_error);
    idt.set_handler(1, handlers.debug);
    idt.set_handler(3, handlers.breakpoint);
    idt.set_handler(4, handlers.overflow);
    idt.set_handler(5, handlers.bound_range_exceeded);
    idt.set_handler(6, handlers.invalid_opcode);
    idt.set_handler(7, handlers.device_not_available);
    let mut double_fault: Entry = idt.table[8];
    double_fault.set_handler_address(handlers.double_fault).set_stack_index(0);
    idt.table[8] = double_fault;
    idt.set_handler(10, handlers.segmentation_fault);
    idt.set_handler(11, handlers.segmentation_fault);
    idt.set_handler(12, handlers.segmentation_fault);
    idt.set_handler(13, handlers.general_protection_fault);
    idt.set_handler(14, handlers.page_fault);
    idt.set_handler(16, handlers.x87_floating_point_exception);
    idt.set_handler(17, handlers.alignment_check);
    idt.set_handler(18, handlers.machine_check);
    idt.set_handler(19, handlers.simd_floating_point_exception);
    idt.set_handler(20, handlers.virtualization_exception);
    idt.set_handler(21, handlers.control_protection_exception);
    idt.set_handler(28, handlers.hypervisor_injection_exception);
    idt.set_handler(29, handlers.vmm_communication_exception);
    idt.set_handler(30, handlers.security_exception);
    idt.set_handler(32, handlers.timer_tick);
    idt
}

} // verus!
