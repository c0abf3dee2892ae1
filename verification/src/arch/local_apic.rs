//! The local APIC of each processor and its timer.

use crate::arch::cpu::Cpu;
use crate::arch::io_apic::{device_page, MmioWrite};
use crate::layout::MIN_PAGE_SIZE;
use crate::memory::align_down;
use crate::paging::memory::{MapError, PhysicalMemory};
use crate::paging::table::PageTable;
use vstd::prelude::*;

verus! {

/// What the timer counts down from.
pub const TIMER_INITIAL_COUNT: u32 = 0x19FBD0;

/// The interrupt vector of the timer.
pub const TIMER_VECTOR: u32 = 32;

/// Bit 17 of the timer's vector register: the timer starts over when it has
/// run down.
pub const TIMER_PERIODIC: u32 = 1 << 17;

/// The value of the divide configuration register.
pub const TIMER_DIVIDE: u32 = 16;

/// Bit 11 of the APIC base register: the APIC is switched on.
pub const APIC_ENABLE: u64 = 1 << 11;

/// The local APIC whose registers start at the virtual address held.
#[derive(Debug, Clone, Copy, PartialEq, Eq, Structural)]
pub struct LocalApic(pub usize);

#[derive(Debug, Clone, Copy, PartialEq, Eq, Structural)]
pub enum LocalApicRegister {
    Id,
    Version,
    Eoi,
    TimerLvt,
    TimerInit,
    TimerDiv,
}

impl LocalApicRegister {
    /// Where the register lies from the APIC's base on.
    pub open spec fn spec_offset(self) -> usize {
        match self {
            LocalApicRegister::Id => 0x20,
            LocalApicRegister::Version => 0x30,
            LocalApicRegister::Eoi => 0xb0,
            LocalApicRegister::TimerLvt => 0x320,
            LocalApicRegister::TimerInit => 0x380,
            LocalApicRegister::TimerDiv => 0x3e0,
        }
    }

    /// Where the register lies from the APIC's base on.
    pub fn offset(self) -> (r: usize)
        ensures
            r == self.spec_offset(),
    {
        match self {
            LocalApicRegister::Id => 0x20,
            LocalApicRegister::Version => 0x30,
            LocalApicRegister::Eoi => 0xb0,
            LocalApicRegister::TimerLvt => 0x320,
            LocalApicRegister::TimerInit => 0x380,
            LocalApicRegister::TimerDiv => 0x3e0,
        }
    }
}

/// What is left to do once the registers of a processor's local APIC are
/// mapped: the APIC as it is reached, the value for the APIC base register,
/// and the writes that start the timer, in order.
#[derive(Debug, Clone, Copy)]
pub struct LocalApicSetup {
    pub apic: LocalApic,
    pub apic_base: u64,
    pub timer: [MmioWrite; 3],
}

impl LocalApic {
    /// The local APIC of the processor `cpu`.
    pub fn get(apics: &Vec<LocalApic>, cpu: &Cpu) -> (r: LocalApic)
        requires
            cpu.id < apics@.len(),
        ensures
            r == apics@[cpu.id as int],
    {
        apics[cpu.id as usize]
    }

    /// The write that stores `value` in `register`.
    pub fn write(&self, register: LocalApicRegister, value: u32) -> (r: MmioWrite)
        requires
            self.0 + 0x3e0 <= usize::MAX,
        ensures
            r == (MmioWrite { address: (self.0 + register.spec_offset()) as usize, value }),
    {
        MmioWrite { address: self.0 + register.offset(), value }
    }

    /// The address from which the value of `register` is read.
    pub fn read(&self, register: LocalApicRegister) -> (r: usize)
        requires
            self.0 + 0x3e0 <= usize::MAX,
        ensures
            r == self.0 + register.spec_offset(),
    {
        self.0 + register.offset()
    }
}

/// The physical address of the local APIC's registers that the APIC base
/// register `apic_base` names.
pub open spec fn apic_registers(apic_base: u64) -> usize {
    (apic_base as usize) & 0xFFFFF000
}

/// Brings up the local APIC of the processor `cpu`, whose APIC base register
/// holds `apic_base`: maps the page of the APIC's registers through the
/// direct map as device memory, notes the APIC in the processor's slot of
/// `apics`, and returns the APIC as it is reached then, the value that
/// switches it on in the APIC base register, and the writes that start its
/// timer: the initial count, then the periodic vector, then the divider.
/// Where the page cannot be mapped, nothing changes and the reason is
/// returned.
pub fn init(
    memory: &mut PhysicalMemory,
    root: usize,
    apics: &mut Vec<LocalApic>,
    cpu: &Cpu,
    apic_base: u64,
) -> (r: Result<LocalApicSetup, MapError>)
    requires
        old(memory).wf(),
        old(memory).view().level_at(root as int) == 4,
        apic_registers(apic_base) + old(memory).hhdm_offset + 0x3e0 <= usize::MAX,
        cpu.id < old(apics)@.len(),
    ensures
        final(apics)@ == (match r {
            Ok(setup) => old(apics)@.update(cpu.id as int, setup.apic),
            Err(_) => old(apics)@,
        }),
        final(memory).wf(),
        final(memory).same_place(old(memory)),
        final(memory).view().level_at(root as int) == 4,
        ({
            let view = old(memory).view();
            let page = device_page(apic_registers(apic_base) as int, view.hhdm);
            let outcome = view.after_map_device(view.frame_of(root as int), page.0, page.1);
            &&& final(memory).view() == outcome.0
            &&& final(memory).invalidated@ == (if outcome.1 {
                old(memory).invalidated@.push(page.0)
            } else {
                old(memory).invalidated@
            })
            &&& match r {
                Ok(setup) => {
                    &&& outcome.2.is_none()
                    &&& setup.apic == LocalApic((apic_registers(apic_base) + view.hhdm) as usize)
                    &&& setup.apic_base == apic_base | APIC_ENABLE
                    &&& setup.timer@ == seq![
                        MmioWrite {
                            address: (setup.apic.0 + 0x380) as usize,
                            value: TIMER_INITIAL_COUNT,
                        },
                        MmioWrite {
                            address: (setup.apic.0 + 0x320) as usize,
                            value: TIMER_VECTOR | TIMER_PERIODIC,
                        },
                        MmioWrite { address: (setup.apic.0 + 0x3e0) as usize, value: TIMER_DIVIDE },
                    ]
                },
                Err(error) => outcome.2 == Some(error),
            }
        }),
{
    let phys: usize = apic_base as usize & 0xFFFFF000;
    let virt: usize = phys + memory.hhdm_offset;
    match PageTable::map_device(
        memory,
        root,
        align_down(virt, MIN_PAGE_SIZE),
        align_down(phys, MIN_PAGE_SIZE),
    ) {
        Err(error) => {
            return Err(error);
        },
        Ok(()) => {},
    }
    let apic = LocalApic(virt);
    apics[cpu.id as usize] = apic;
    let timer = [
        apic.write(LocalApicRegister::TimerInit, TIMER_INITIAL_COUNT),
        apic.write(LocalApicRegister::TimerLvt, TIMER_VECTOR | TIMER_PERIODIC),
        apic.write(LocalApicRegister::TimerDiv, TIMER_DIVIDE),
    ];
    Ok(LocalApicSetup { apic, apic_base: apic_base | APIC_ENABLE, timer })
}

/// What the timer's interrupt does: one write of 0 to the end-of-interrupt
/// register, and nothing else.
pub fn handle_timer_tick(apic: LocalApic) -> (r: MmioWrite)
    requires
        apic.0 + 0x3e0 <= usize::MAX,
    ensures
        r == (MmioWrite { address: (apic.0 + 0xB0) as usize, value: 0 }),
{
    apic.write(LocalApicRegister::Eoi, 0)
}

} // verus!
