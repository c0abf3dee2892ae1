//! Bringing the other processors up.

use vstd::prelude::*;

verus! {

/// The most processors that the kernel runs on.
pub const MAX_CPU_COUNT: usize = 64;

/// What the boot loader tells of one processor, and where the processor is
/// to start once `goto_address` is written.
#[derive(Debug, Clone, Copy, PartialEq, Eq, Structural)]
pub struct CpuDescriptor {
    pub id: u32,
    pub goto_address: u64,
}

/// Directs the first `MAX_CPU_COUNT` processors to the code at `entry`; the
/// descriptors behind them are left as they are.
pub fn boot_ap(cpus: &mut Vec<CpuDescriptor>, entry: u64)
    ensures
        final(cpus)@.len() == old(cpus)@.len(),
        forall|i: int|
            0 <= i < old(cpus)@.len() ==> #[trigger] final(cpus)@[i] == (if i < MAX_CPU_COUNT {
                CpuDescriptor { id: old(cpus)@[i].id, goto_address: entry }
            } else {
                old(cpus)@[i]
            }),
{
    let mut i: usize = 0;
    while i < cpus.len() && i < MAX_CPU_COUNT
        invariant
            cpus@.len() == old(cpus)@.len(),
            i <= cpus@.len(),
            i <= MAX_CPU_COUNT,
            forall|k: int|
                0 <= k < cpus@.len() ==> #[trigger] cpus@[k] == (if k < i {
                    CpuDescriptor { id: old(cpus)@[k].id, goto_address: entry }
                } else {
                    old(cpus)@[k]
                }),
        decreases cpus@.len() - i,
    {
        let id: u32 = cpus[i].id;
        cpus[i] = CpuDescriptor { id, goto_address: entry };
        i += 1;
    }
}

} // verus!
