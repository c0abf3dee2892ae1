//! The task state segment of each processor.

use crate::arch::cpu::Cpu;
use crate::mp::MAX_CPU_COUNT;
use vstd::prelude::*;

verus! {

/// The bytes of a task state segment.
pub const TSS_SIZE: usize = 104;

/// The bytes of the stack that interrupt stack 1 points to.
pub const IST_STACK_SIZE: usize = 20 * 1024;

/// The selector of the first processor's task state segment.
pub const FIRST_TSS_SELECTOR: u16 = 0x28;

#[derive(Debug, Clone, Copy)]
pub struct TaskStateSegment {
    pub reserved_1: u32,
    pub privilege_stack_table: [u64; 3],
    pub reserved_2: u64,
    pub interrupt_stack_table: [u64; 7],
    pub reserved_3: u64,
    pub reserved_4: u16,
    pub iomap_base: u16,
}

impl TaskStateSegment {
    /// A segment without stacks, whose I/O map starts behind its end and so
    /// is switched off.
    pub fn new() -> (r: TaskStateSegment)
        ensures
            r.iomap_base == TSS_SIZE,
            forall|i: int| 0 <= i < 3 ==> r.privilege_stack_table@[i] == 0,
            forall|i: int| 0 <= i < 7 ==> r.interrupt_stack_table@[i] == 0,
            r.reserved_1 == 0 && r.reserved_2 == 0 && r.reserved_3 == 0 && r.reserved_4 == 0,
    {
        TaskStateSegment {
            privilege_stack_table: [0; 3],
            interrupt_stack_table: [0; 7],
            iomap_base: 104,
            reserved_1: 0,
            reserved_2: 0,
            reserved_3: 0,
            reserved_4: 0,
        }
    }

    /// A segment whose interrupt stack 1 is the `IST_STACK_SIZE` bytes at
    /// `stack`: the entry holds the address behind the stack's last byte.
    pub fn with_interrupt_stack(stack: u64) -> (r: TaskStateSegment)
        requires
            stack + IST_STACK_SIZE <= u64::MAX,
        ensures
            r.iomap_base == TSS_SIZE,
            r.interrupt_stack_table@[0] == stack + IST_STACK_SIZE,
            forall|i: int| 1 <= i < 7 ==> r.interrupt_stack_table@[i] == 0,
            forall|i: int| 0 <= i < 3 ==> r.privilege_stack_table@[i] == 0,
    {
        let mut tss = TaskStateSegment::new();
        tss.interrupt_stack_table[0] = stack + 20 * 1024;
        tss
    }
}

impl Default for TaskStateSegment {
    fn default() -> (r: TaskStateSegment)
        ensures
            r.iomap_base == TSS_SIZE,
            forall|i: int| 0 <= i < 3 ==> r.privilege_stack_table@[i] == 0,
            forall|i: int| 0 <= i < 7 ==> r.interrupt_stack_table@[i] == 0,
    {
        Self::new()
    }
}

/// The selector of the task state segment of processor `cpu_id`.
pub open spec fn tss_selector(cpu_id: u32) -> int {
    0x28 + cpu_id * 16
}

/// The selector that the task register of `cpu` is to be loaded with.
pub fn load(cpu: &Cpu) -> (selector: u16)
    requires
        cpu.id < MAX_CPU_COUNT,
    ensures
        selector == tss_selector(cpu.id),
{
    0x28 + (cpu.id as u16) * 16
}

} // verus!
