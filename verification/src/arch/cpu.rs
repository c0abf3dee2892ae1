//! The kernel's own block of data for each processor.

use crate::mp::MAX_CPU_COUNT;
use vstd::prelude::*;

verus! {

/// What the kernel keeps of one processor.
#[derive(Debug, Clone, Copy, PartialEq, Eq, Structural)]
pub struct Cpu {
    pub id: u32,
}

/// The blocks of all processors, one slot for each possible id.
pub struct CpuTable {
    pub cpus: Vec<Cpu>,
}

impl CpuTable {
    pub open spec fn wf(&self) -> bool {
        self.cpus@.len() == MAX_CPU_COUNT
    }

    /// A table in which every slot holds the block of processor 0.
    pub fn new() -> (r: CpuTable)
        ensures
            r.wf(),
            forall|i: int| 0 <= i < MAX_CPU_COUNT ==> #[trigger] r.cpus@[i] == (Cpu { id: 0 }),
    {
        let mut cpus: Vec<Cpu> = Vec::new();
        let mut i: usize = 0;
        while i < MAX_CPU_COUNT
            invariant
                i <= MAX_CPU_COUNT,
                cpus@.len() == i,
                forall|k: int| 0 <= k < i ==> #[trigger] cpus@[k] == (Cpu { id: 0 }),
            decreases MAX_CPU_COUNT - i,
        {
            cpus.push(Cpu::new(0));
            i += 1;
        }
        CpuTable { cpus }
    }
}

impl Cpu {
    pub fn new(id: u32) -> (r: Cpu)
        ensures
            r.id == id,
    {
        Cpu { id }
    }

    /// The block in slot `slot`, which is where the per-CPU base register
    /// points for the processor that runs.
    pub fn get(table: &CpuTable, slot: usize) -> (r: Cpu)
        requires
            table.wf(),
            slot < MAX_CPU_COUNT,
        ensures
            r == table.cpus@[slot as int],
    {
        table.cpus[slot]
    }

    /// Stores `cpu` in the slot of its id and returns the slot, which the
    /// per-CPU base register is then to point to.
    pub fn set(table: &mut CpuTable, cpu: Cpu) -> (slot: usize)
        requires
            old(table).wf(),
            cpu.id < MAX_CPU_COUNT,
        ensures
            final(table).wf(),
            slot == cpu.id,
            final(table).cpus@ == old(table).cpus@.update(cpu.id as int, cpu),
    {
        let slot: usize = cpu.id as usize;
        table.cpus[slot] = cpu;
        slot
    }
}

} // verus!
