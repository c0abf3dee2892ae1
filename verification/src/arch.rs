//! What is particular to x86_64: descriptor tables, the per-CPU block, model
//! specific registers, and the interrupt controllers.

pub mod cpu;
pub mod gdt;
pub mod idt;
pub mod io_apic;
pub mod local_apic;
pub mod msr;
pub mod pic;
pub mod tss;

use vstd::prelude::*;

verus! {

/// The architectures that the kernel runs on.
#[derive(Debug, Clone, Copy, PartialEq, Eq, Structural)]
pub enum Arch {
    X86_64,
}

impl Arch {
    /// The name of the architecture, as build tools spell it.
    pub fn as_str(&self) -> (r: &'static str)
        ensures
            r@ == "x86_64"@,
    {
        match self {
            Arch::X86_64 => "x86_64",
        }
    }
}

/// One step of bringing a processor up.
#[derive(Debug, Clone, Copy, PartialEq, Eq, Structural)]
pub enum BringUpStep {
    /// Store the block of the processor with this id and point the per-CPU
    /// base register to it.
    SetCpu(u32),
    LoadGdt,
    LoadTss,
    LoadIdt,
    DisablePic,
    InitIoApics,
    InitLocalApic,
}

/// What the bootstrap processor does, in order: it is processor 0, loads
/// its descriptor tables, masks the legacy controllers, maps the I/O APICs,
/// and brings its local APIC up.
pub fn init_bsp() -> (r: [BringUpStep; 7])
    ensures
        r@ == seq![
            BringUpStep::SetCpu(0),
            BringUpStep::LoadGdt,
            BringUpStep::LoadTss,
            BringUpStep::LoadIdt,
            BringUpStep::DisablePic,
            BringUpStep::InitIoApics,
            BringUpStep::InitLocalApic,
        ],
{
    let steps = [
        BringUpStep::SetCpu(0),
        BringUpStep::LoadGdt,
        BringUpStep::LoadTss,
        BringUpStep::LoadIdt,
        BringUpStep::DisablePic,
        BringUpStep::InitIoApics,
        BringUpStep::InitLocalApic,
    ];
    assert(steps@ =~= seq![
        BringUpStep::SetCpu(0),
        BringUpStep::LoadGdt,
        BringUpStep::LoadTss,
        BringUpStep::LoadIdt,
        BringUpStep::DisablePic,
        BringUpStep::InitIoApics,
        BringUpStep::InitLocalApic,
    ]);
    steps
}

/// What every other processor does, in order: it takes its id, loads its
/// descriptor tables, and brings its local APIC up.
pub fn init_ap(cpu_id: u32) -> (r: [BringUpStep; 5])
    ensures
        r@ == seq![
            BringUpStep::SetCpu(cpu_id),
            BringUpStep::LoadGdt,
            BringUpStep::LoadTss,
            BringUpStep::LoadIdt,
            BringUpStep::InitLocalApic,
        ],
{
    let steps = [
        BringUpStep::SetCpu(cpu_id),
        BringUpStep::LoadGdt,
        BringUpStep::LoadTss,
        BringUpStep::LoadIdt,
        BringUpStep::InitLocalApic,
    ];
    assert(steps@ =~= seq![
        BringUpStep::SetCpu(cpu_id),
        BringUpStep::LoadGdt,
        BringUpStep::LoadTss,
        BringUpStep::LoadIdt,
        BringUpStep::InitLocalApic,
    ]);
    steps
}

} // verus!
