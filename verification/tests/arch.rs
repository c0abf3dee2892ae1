use fajr_kernel::acpi::IoApicEntry;
use fajr_kernel::arch::cpu::{Cpu, CpuTable};
use fajr_kernel::arch::gdt::{
    Descriptor, DescriptorTableRegister, Entry, GlobalDescriptorTable, KERNEL_CODE_SELECTOR,
    KERNEL_DATA_SELECTOR, USER_CODE_SELECTOR, USER_DATA_SELECTOR,
};
use fajr_kernel::arch::idt::{load as idt_load, EntryOptions, Handlers};
use fajr_kernel::arch::io_apic::{
    init as io_apic_init, mapping_of, IoApic, IoApicError, MmioWrite, RegisterRead, RegisterWrite,
};
use fajr_kernel::arch::local_apic::{
    handle_timer_tick, init as local_apic_init, LocalApic, LocalApicRegister,
};
use fajr_kernel::arch::msr::{ModelSpecificRegister, MsrWrite};
use fajr_kernel::arch::pic::{disable, PortWrite};
use fajr_kernel::arch::tss::{load as tss_selector, TaskStateSegment};
use fajr_kernel::arch::{init_ap, init_bsp, BringUpStep};
use fajr_kernel::mp::{boot_ap, CpuDescriptor};
use fajr_kernel::paging::entry::Entry as PageEntry;
use fajr_kernel::paging::memory::{get_active_table, MapError, PhysicalMemory};

const HHDM: usize = 0xFFFF_8000_0000_0000;
const POOL: usize = 0x4020_0000;

fn translate(memory: &PhysicalMemory, virt: usize) -> Option<usize> {
    get_active_table(memory).translate(memory, virt)
}

#[test]
fn segment_descriptors_have_their_known_values() {
    assert_eq!(Descriptor::kernel_code_segment(), Descriptor::UserSegment(0xffaf_9bff_ffff_ffff));
    assert_eq!(Descriptor::kernel_data_segment(), Descriptor::UserSegment(0xffcf_93ff_ffff_ffff));
    assert_eq!(Descriptor::user_code_segment(), Descriptor::UserSegment(0xffaf_fbff_ffff_ffff));
    assert_eq!(Descriptor::user_data_segment(), Descriptor::UserSegment(0xffcf_f3ff_ffff_ffff));
}

#[test]
fn tss_descriptor_spreads_the_address_over_its_fields() {
    assert_eq!(
        Descriptor::task_state_segment(0x1234_5678_9abc_def0),
        Descriptor::SystemSegment(0x9a00_89bc_def0_0067, 0x1234_5678)
    );
    assert_eq!(Descriptor::task_state_segment(0), Descriptor::SystemSegment(0x0000_8900_0000_0067, 0));
}

#[test]
fn gdt_layout() {
    let tss: Vec<u64> = vec![0x1000, 0x2000, 0xffff_8000_0030_0000];
    let gdt = GlobalDescriptorTable::<16>::standard(&tss);
    assert_eq!(gdt.len, 11);
    assert_eq!(gdt.table[0], Entry(0));
    assert_eq!(gdt.table[(KERNEL_CODE_SELECTOR / 8) as usize], Entry(0xffaf_9bff_ffff_ffff));
    assert_eq!(gdt.table[(KERNEL_DATA_SELECTOR / 8) as usize], Entry(0xffcf_93ff_ffff_ffff));
    assert_eq!(gdt.table[(USER_CODE_SELECTOR / 8) as usize], Entry(0xffaf_fbff_ffff_ffff));
    assert_eq!(gdt.table[(USER_DATA_SELECTOR / 8) as usize], Entry(0xffcf_f3ff_ffff_ffff));
    assert_eq!(
        (KERNEL_CODE_SELECTOR / 8, KERNEL_DATA_SELECTOR / 8, USER_CODE_SELECTOR / 8, USER_DATA_SELECTOR / 8),
        (1, 2, 3, 4)
    );
    for (cpu, address) in tss.iter().enumerate() {
        let selector = tss_selector(&Cpu::new(cpu as u32));
        assert_eq!(selector as usize, 0x28 + 16 * cpu);
        let slot = selector as usize / 8;
        assert_eq!(slot, 5 + 2 * cpu);
        assert_eq!(
            Descriptor::SystemSegment(gdt.table[slot].0, gdt.table[slot + 1].0),
            Descriptor::task_state_segment(*address)
        );
    }
    assert_eq!(gdt.register(0x5000), DescriptorTableRegister { size: 87, address: 0x5000 });
    let setup = fajr_kernel::arch::gdt::init::<16>(&tss);
    assert_eq!(setup.table.table, gdt.table);
    assert_eq!((setup.code_selector, setup.data_selector), (0x08, 0x10));
}

#[test]
fn gdt_push_takes_one_or_two_slots() {
    let mut gdt = GlobalDescriptorTable::<8>::empty();
    assert_eq!(gdt.len, 1);
    gdt.push(Descriptor::UserSegment(7));
    gdt.push(Descriptor::SystemSegment(8, 9));
    assert_eq!(gdt.len, 4);
    assert_eq!(&gdt.table[..4], &[Entry(0), Entry(7), Entry(8), Entry(9)]);
    assert_eq!(gdt.register(0).size, 31);
}

#[test]
fn tss_points_its_first_interrupt_stack_behind_the_stack() {
    let tss = TaskStateSegment::new();
    assert_eq!(tss.iomap_base, 104);
    assert_eq!(tss.interrupt_stack_table, [0; 7]);
    assert_eq!(tss.privilege_stack_table, [0; 3]);
    let tss = TaskStateSegment::with_interrupt_stack(0x8_0000);
    assert_eq!(tss.interrupt_stack_table, [0x8_0000 + 20 * 1024, 0, 0, 0, 0, 0, 0]);
    assert_eq!(tss_selector(&Cpu::new(63)), 0x28 + 63 * 16);
}

fn handlers() -> Handlers {
    Handlers {
        division_error: 0x1000,
        debug: 0x1001,
        breakpoint: 0x1003,
        overflow: 0x1004,
        bound_range_exceeded: 0x1005,
        invalid_opcode: 0x1006,
        device_not_available: 0x1007,
        double_fault: 0xffff_ffff_8123_4567,
        segmentation_fault: 0x100a,
        general_protection_fault: 0x100d,
        page_fault: 0x100e,
        x87_floating_point_exception: 0x1010,
        alignment_check: 0x1011,
        machine_check: 0x1012,
        simd_floating_point_exception: 0x1013,
        virtualization_exception: 0x1014,
        control_protection_exception: 0x1015,
        hypervisor_injection_exception: 0x101c,
        vmm_communication_exception: 0x101d,
        security_exception: 0x101e,
        timer_tick: 0x1020,
    }
}

#[test]
fn idt_gates_name_their_handlers() {
    let idt = idt_load(&handlers());
    assert_eq!(idt.table.len(), 256);
    let present = [
        0usize, 1, 3, 4, 5, 6, 7, 8, 10, 11, 12, 13, 14, 16, 17, 18, 19, 20, 21, 28, 29, 30, 32,
    ];
    for vector in 0..256 {
        let gate = idt.table[vector];
        if present.contains(&vector) {
            assert_eq!(gate.options.cs, 0x08);
            assert_eq!(gate.options.bits, if vector == 8 { 0x8e01 } else { 0x8e00 });
            if ![8, 10, 11, 12].contains(&vector) {
                assert_eq!(gate.address_low as usize, 0x1000 + vector);
            }
        } else {
            assert_eq!(gate, fajr_kernel::arch::idt::Entry::empty());
        }
    }
    let double_fault = idt.table[8];
    assert_eq!(
        (double_fault.address_low, double_fault.address_middle, double_fault.address_high),
        (0x4567, 0x8123, 0xffff_ffff)
    );
    assert_eq!(idt.table[11].address_low, 0x100a);
    assert_eq!(idt.register(0x9000), DescriptorTableRegister { size: 4095, address: 0x9000 });
}

#[test]
fn idt_options_set_their_bits() {
    let mut options = EntryOptions::minimal();
    assert_eq!(options, EntryOptions { cs: 0, bits: 0x0e00 });
    options.set_present(true);
    assert_eq!(options.bits, 0x8e00);
    options.set_stack_index(6);
    assert_eq!(options.bits, 0x8e07);
    options.set_stack_index(0).set_code_selector(0x18).set_present(false);
    assert_eq!(options, EntryOptions { cs: 0x18, bits: 0x0e01 });
    let mut entry = fajr_kernel::arch::idt::Entry::empty();
    entry.set_handler_address(0x1122_3344_5566_7788).set_stack_index(2);
    assert_eq!(
        (entry.address_low, entry.address_middle, entry.address_high, entry.reserved),
        (0x7788, 0x5566, 0x1122_3344, 0)
    );
    assert_eq!(entry.options, EntryOptions { cs: 0x08, bits: 0x8e03 });
}

#[test]
fn io_apic_registers_go_through_the_window() {
    let io_apic = IoApic::new(0x9000);
    let read = |index| RegisterRead {
        select: MmioWrite { address: 0x9000, value: index },
        data_address: 0x9010,
    };
    assert_eq!(io_apic.id(), read(0));
    assert_eq!(io_apic.version(), read(1));
    assert_eq!(io_apic.arbitration_id(), read(2));
    assert_eq!(io_apic.read(0x15), read(0x15));
    assert_eq!(
        io_apic.write(0x12, 0xabcd),
        RegisterWrite {
            select: MmioWrite { address: 0x9000, value: 0x12 },
            data: MmioWrite { address: 0x9010, value: 0xabcd },
        }
    );
}

#[test]
fn io_apic_masks_and_unmasks_a_line() {
    let io_apic = IoApic::new(0x9000);
    let enable = io_apic.irq_enable(3, 0xffff_ffff);
    assert_eq!(enable.select.value, 0x16);
    assert_eq!(enable.data, MmioWrite { address: 0x9010, value: 0xfffe_ffff });
    let disable = io_apic.irq_disable(3, 0x0000_0031);
    assert_eq!(disable.select.value, 0x16);
    assert_eq!(disable.data.value, 0x0001_0031);
}

#[test]
fn io_apic_sets_a_line_high_word_first() {
    let io_apic = IoApic::new(0x9000);
    let writes = io_apic.irq_set(2, 5, 0x30, 0xffff_ffff, 0xffff_ffff);
    assert_eq!(writes[0].select, MmioWrite { address: 0x9000, value: 0x15 });
    assert_eq!(writes[0].data, MmioWrite { address: 0x9010, value: 0x05ff_ffff });
    assert_eq!(writes[1].select, MmioWrite { address: 0x9000, value: 0x14 });
    assert_eq!(writes[1].data, MmioWrite { address: 0x9010, value: 0xfffe_f030 });
    let writes = io_apic.irq_set(0, 0xff, 0xfe, 0, 0);
    assert_eq!((writes[0].data.value, writes[1].data.value), (0xff00_0000, 0xfe));
}

fn io_apic_entry(id: u8, physical_address: u32) -> IoApicEntry {
    IoApicEntry { id, reserved: 0, physical_address, global_system_interrupt_base: 0 }
}

#[test]
fn io_apics_are_mapped_page_by_page() {
    let mapping = mapping_of(&io_apic_entry(1, 0xFEC0_0120), HHDM);
    assert_eq!(mapping.page_phys, 0xFEC0_0000);
    assert_eq!(mapping.page_virt, HHDM + 0xFEC0_0000);
    assert_eq!(mapping.io_apic, IoApic(HHDM + 0xFEC0_0120));
    let mut memory = PhysicalMemory::new(HHDM, POOL, 16 * 4096);
    let root = memory.cr3;
    let entries: Vec<IoApicEntry> =
        (0..130).map(|i| io_apic_entry(i as u8, 0xFEC0_0040 + 0x1000 * i)).collect();
    let io_apics = io_apic_init(&mut memory, root, &entries).unwrap();
    assert_eq!(io_apics.len(), 128);
    assert_eq!(io_apics[127], IoApic(HHDM + 0xFEC0_0040 + 0x1000 * 127));
    assert_eq!(memory.allocator.calculate_free_space(), 11 * 4096);
    for i in 0..128 {
        let registers = 0xFEC0_0040 + 0x1000 * i;
        assert_eq!(translate(&memory, HHDM + registers), Some(registers));
        assert_eq!(memory.frames[4].entries[i], PageEntry(0xFEC0_0000 + 0x1000 * i as u64 | 0x1b));
    }
    assert_eq!(translate(&memory, HHDM + 0xFEC0_0000 + 0x1000 * 128), None);
    assert!(memory.invalidated.is_empty());
}

#[test]
fn io_apics_that_cannot_be_brought_up_say_why() {
    let mut memory = PhysicalMemory::new(HHDM, POOL, 16 * 4096);
    let root = memory.cr3;
    assert_eq!(io_apic_init(&mut memory, root, &Vec::new()), Err(IoApicError::NoneFound));
    let inside = vec![io_apic_entry(0, 0xFEC0_0000), io_apic_entry(1, 0x4000_0000)];
    assert_eq!(
        io_apic_init(&mut memory, root, &inside),
        Err(IoApicError::Unmappable(MapError::HugePage))
    );
    assert_eq!(translate(&memory, HHDM + 0xFEC0_0000), Some(0xFEC0_0000));
    let mut small = PhysicalMemory::new(HHDM, POOL, 4 * 4096);
    let root = small.cr3;
    assert_eq!(
        io_apic_init(&mut small, root, &inside),
        Err(IoApicError::Unmappable(MapError::OutOfMemory))
    );
    assert_eq!(small.allocator.calculate_free_space(), 4096);
}

#[test]
fn timer_tick_writes_end_of_interrupt_once() {
    let apic = LocalApic(HHDM + 0xFEE0_0000);
    assert_eq!(
        handle_timer_tick(apic),
        MmioWrite { address: HHDM + 0xFEE0_0000 + 0xB0, value: 0 }
    );
}

#[test]
fn local_apic_setup_starts_the_timer() {
    let mut memory = PhysicalMemory::new(HHDM, POOL, 16 * 4096);
    let root = memory.cr3;
    let mut table = vec![LocalApic(0); 4];
    let cpu = Cpu::new(2);
    let setup = local_apic_init(&mut memory, root, &mut table, &cpu, 0xFEE0_0900).unwrap();
    assert_eq!(table, vec![LocalApic(0), LocalApic(0), setup.apic, LocalApic(0)]);
    assert_eq!(translate(&memory, HHDM + 0xFEE0_00B0), Some(0xFEE0_00B0));
    assert_eq!(memory.frames[4].entries[0], PageEntry(0xFEE0_0000 | 0x1b));
    assert_eq!(setup.apic, LocalApic(HHDM + 0xFEE0_0000));
    assert_eq!(setup.apic_base, 0xFEE0_0900);
    let again = local_apic_init(&mut memory, root, &mut table, &cpu, 0xFEE0_0100).unwrap();
    assert_eq!(again.apic_base, 0xFEE0_0900);
    assert_eq!(memory.invalidated, vec![HHDM + 0xFEE0_0000]);
    let other = Cpu::new(1);
    assert_eq!(
        local_apic_init(&mut memory, root, &mut table, &other, 0x4000_0100).err(),
        Some(MapError::HugePage)
    );
    assert_eq!(table[1], LocalApic(0));
    let base = HHDM + 0xFEE0_0000;
    assert_eq!(
        setup.timer,
        [
            MmioWrite { address: base + 0x380, value: 0x19FBD0 },
            MmioWrite { address: base + 0x320, value: 0x0002_0020 },
            MmioWrite { address: base + 0x3e0, value: 16 },
        ]
    );
    let apic = LocalApic(0x1000);
    assert_eq!(apic.read(LocalApicRegister::Id), 0x1020);
    assert_eq!(apic.read(LocalApicRegister::Version), 0x1030);
    assert_eq!(apic.write(LocalApicRegister::Eoi, 9), MmioWrite { address: 0x10b0, value: 9 });
    let apics = vec![LocalApic(1), LocalApic(2), LocalApic(3)];
    assert_eq!(LocalApic::get(&apics, &Cpu::new(2)), LocalApic(3));
}

#[test]
fn msr_values_come_in_two_halves() {
    assert_eq!(ModelSpecificRegister::ApicBase.number(), 0x1B);
    assert_eq!(ModelSpecificRegister::KernelGsBase.number(), 0xC000_0102);
    assert_eq!(ModelSpecificRegister::Efer.read(0x89ab_cdef, 0x0123_4567), 0x0123_4567_89ab_cdef);
    assert_eq!(
        ModelSpecificRegister::GsBase.write(0x0123_4567_89ab_cdef),
        MsrWrite { register: 0xC000_0101, low: 0x89ab_cdef, high: 0x0123_4567 }
    );
}

#[test]
fn pic_is_masked_on_both_data_ports() {
    assert_eq!(
        disable(),
        [PortWrite { port: 0x21, value: 0xff }, PortWrite { port: 0xA1, value: 0xff }]
    );
}

#[test]
fn cpu_blocks_live_in_the_slot_of_their_id() {
    let mut table = CpuTable::new();
    assert_eq!(table.cpus.len(), 64);
    assert_eq!(Cpu::set(&mut table, Cpu::new(5)), 5);
    assert_eq!(Cpu::get(&table, 5), Cpu { id: 5 });
    assert_eq!(Cpu::get(&table, 6), Cpu { id: 0 });
}

#[test]
fn processors_are_brought_up_in_order() {
    assert_eq!(
        init_bsp(),
        [
            BringUpStep::SetCpu(0),
            BringUpStep::LoadGdt,
            BringUpStep::LoadTss,
            BringUpStep::LoadIdt,
            BringUpStep::DisablePic,
            BringUpStep::InitIoApics,
            BringUpStep::InitLocalApic,
        ]
    );
    assert_eq!(
        init_ap(3),
        [
            BringUpStep::SetCpu(3),
            BringUpStep::LoadGdt,
            BringUpStep::LoadTss,
            BringUpStep::LoadIdt,
            BringUpStep::InitLocalApic,
        ]
    );
}

#[test]
fn application_processors_are_sent_to_the_entry() {
    let mut cpus: Vec<CpuDescriptor> =
        (0..70).map(|id| CpuDescriptor { id, goto_address: 0 }).collect();
    boot_ap(&mut cpus, 0xffff_ffff_8000_1000);
    for (index, cpu) in cpus.iter().enumerate() {
        assert_eq!(cpu.id as usize, index);
        assert_eq!(cpu.goto_address, if index < 64 { 0xffff_ffff_8000_1000 } else { 0 });
    }
}
