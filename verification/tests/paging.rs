use fajr_kernel::paging::entry::Entry;
use fajr_kernel::paging::memory::{
    get_active_table, set_active_table, MapError, PhysicalMemory,
};
use fajr_kernel::paging::offset;
use fajr_kernel::paging::table::{offset_in_page, PageTable, PageTableIndices};

const HHDM: usize = 0xFFFF_8000_0000_0000;
const POOL: usize = 0x4020_0000;

fn memory() -> (PhysicalMemory, usize) {
    let memory = PhysicalMemory::new(HHDM, POOL, 64 * 4096);
    let root = memory.cr3;
    (memory, root)
}

fn translate(memory: &PhysicalMemory, root: usize, virt: usize) -> Option<usize> {
    memory.table_at(root).translate(memory, virt)
}

#[test]
fn entry_bits_stand_where_the_processor_reads_them() {
    let mut entry = Entry(0);
    entry.set_present(true);
    assert_eq!(entry.0, 1);
    entry.set_writable(true);
    assert_eq!(entry.0, 0b11);
    entry.set_user_accessible(true);
    assert_eq!(entry.0, 0b111);
    entry.set_write_through(true);
    assert_eq!(entry.0, 0b1111);
    entry.set_cachability(false);
    assert_eq!(entry.0, 0b1_1111);
    entry.set_huge(true);
    assert_eq!(entry.0, 0b1001_1111);
    entry.set_executability(false);
    assert_eq!(entry.0, 0x8000_0000_0000_009f);
    assert!(entry.is_present() && entry.is_huge() && entry.is_uncached());
    assert!(!entry.was_accessed() && !entry.was_written_to());
    entry.set_global(false);
    assert!(!entry.is_huge());
    entry.set_present(false).set_writable(false).set_executability(true);
    assert_eq!(entry.0, 0b1_1100);
    assert!(Entry(1 << 5).was_accessed());
    assert!(Entry(1 << 6).was_written_to());
}

#[test]
fn cachability_twice_is_cachability_once() {
    for raw in [0u64, u64::MAX, 0x10, 0xdead_beef_0000_1234] {
        for cachable in [true, false] {
            let mut once = Entry(raw);
            once.set_cachability(cachable);
            let mut twice = Entry(raw);
            twice.set_cachability(cachable).set_cachability(cachable);
            assert_eq!(once, twice);
            assert_eq!(twice.is_uncached(), !cachable);
        }
    }
}

#[test]
fn entry_holds_bits_12_to_50_of_an_address() {
    let mut entry = Entry(0x8000_0000_0000_0fff);
    entry.set_phys(0x0007_ffff_ffff_f000);
    assert_eq!(entry.0, 0x8007_ffff_ffff_ffff);
    assert_eq!(entry.get_phys(), 0x0007_ffff_ffff_f000);
    entry.set_phys(0x1234_5678);
    assert_eq!(entry.get_phys(), 0x1234_5000);
    assert_eq!(entry.0, 0x8000_0000_1234_5fff);
    assert_eq!(Entry(u64::MAX).get_phys(), 0x0007_ffff_ffff_f000);
}

#[test]
fn indices_cut_a_virtual_address_into_its_parts() {
    let virt: usize = (5 << 39) | (17 << 30) | (300 << 21) | (511 << 12) | 0xabc;
    let indices = PageTableIndices::of(virt);
    assert_eq!(
        (indices.p4_index, indices.p3_index, indices.p2_index, indices.p1_index),
        (5, 17, 300, 511)
    );
    assert_eq!(offset_in_page(virt), 0xabc);
    assert_eq!(offset(0x1000, HHDM), 0xFFFF_8000_0000_1000);
}

#[test]
fn empty_table_has_512_zero_entries() {
    let table = PageTable::empty();
    assert_eq!(table.entries.len(), 512);
    assert!(table.entries.iter().all(|e| e.0 == 0));
    assert_eq!(*table.index(511), Entry(0));
}

#[test]
fn paging_round_trip() {
    let (mut memory, root) = memory();
    assert_eq!(translate(&memory, root, HHDM + 0x1000), None);
    let leaf = *PageTable::map(&mut memory, root, 0xFFFF_8000_0000_1000, 0x1000);
    assert_eq!(leaf, Entry(0x1001));
    assert_eq!(translate(&memory, root, HHDM + 0x1000), Some(0x1000));
    assert_eq!(translate(&memory, root, HHDM + 0x1abc), Some(0x1abc));
    assert_eq!(translate(&memory, root, HHDM + 0x2000), None);
    assert!(memory.invalidated.is_empty());
    PageTable::unmap(&mut memory, root, HHDM + 0x1000);
    assert_eq!(translate(&memory, root, HHDM + 0x1000), None);
    assert_eq!(memory.invalidated, vec![HHDM + 0x1000]);
}

#[test]
fn map_builds_three_tables_from_the_first_free_pages() {
    let (mut memory, root) = memory();
    assert_eq!(root, POOL + 4096);
    let free_before = memory.allocator.calculate_free_space();
    assert_eq!(free_before, 61 * 4096);
    PageTable::map(&mut memory, root, 0x4000_0000, 0x7000);
    assert_eq!(memory.allocator.calculate_free_space(), free_before - 3 * 4096);
    let top = memory.table_at(root).entries[0];
    assert_eq!(top, Entry((POOL as u64 + 3 * 4096) | 0b11));
    let third = top.get_page_table(&memory).entries[1];
    assert_eq!(third, Entry((POOL as u64 + 4 * 4096) | 0b11));
    let second = third.get_page_table(&memory).entries[0];
    assert_eq!(second, Entry((POOL as u64 + 5 * 4096) | 0b11));
    assert_eq!(second.get_page_table(&memory).entries[0], Entry(0x7001));
    PageTable::map(&mut memory, root, 0x4000_1000, 0x9000);
    assert_eq!(memory.allocator.calculate_free_space(), free_before - 3 * 4096);
    assert_eq!(translate(&memory, root, 0x4000_0000), Some(0x7000));
    assert_eq!(translate(&memory, root, 0x4000_1008), Some(0x9008));
}

#[test]
fn map_again_notes_the_page_for_invalidation() {
    let (mut memory, root) = memory();
    PageTable::map(&mut memory, root, 0x5000, 0x1000);
    PageTable::map(&mut memory, root, 0x5000, 0x3000);
    assert_eq!(translate(&memory, root, 0x5000), Some(0x3000));
    assert_eq!(memory.invalidated, vec![0x5000]);
    PageTable::unmap(&mut memory, root, 0x5000);
    PageTable::unmap(&mut memory, root, 0x5000);
    assert_eq!(memory.invalidated, vec![0x5000, 0x5000]);
}

#[test]
fn unmap_of_what_is_not_mapped_changes_nothing() {
    let (mut memory, root) = memory();
    let free_before = memory.allocator.calculate_free_space();
    PageTable::unmap(&mut memory, root, 0x5000);
    assert_eq!(memory.allocator.calculate_free_space(), free_before);
    assert!(memory.invalidated.is_empty());
    assert_eq!(translate(&memory, root, 0x5000), None);
}

#[test]
fn mapped_leaf_takes_device_attributes() {
    let (mut memory, root) = memory();
    assert_eq!(PageTable::map_device(&mut memory, root, 0xfec0_0000, 0xfec0_0000), Ok(()));
    let leaf = memory.frames[5].entries[0];
    assert_eq!(leaf, Entry(0xfec0_0000 | 0b1_1011));
    assert_eq!(translate(&memory, root, 0xfec0_0010), Some(0xfec0_0010));
}

#[test]
fn translate_stops_at_huge_entries() {
    let (mut memory, root) = memory();
    PageTable::map(&mut memory, root, 0, 0x1000);
    memory.frames[3].entries[3] = Entry(0x4000_0000 | 0x81);
    memory.frames[4].entries[7] = Entry(0x0060_0000 | 0x81);
    let in_1g: usize = (3 << 30) | (9 << 21) | (5 << 12) | 0x123;
    assert_eq!(translate(&memory, root, in_1g), Some(0x4000_0000 | (9 << 21) | (5 << 12) | 0x123));
    let in_2m: usize = (7 << 21) | (5 << 12) | 0x456;
    assert_eq!(translate(&memory, root, in_2m), Some(0x0060_0000 | (5 << 12) | 0x456));
}

#[test]
fn memory_starts_with_a_root_that_maps_it() {
    let mut memory = PhysicalMemory::new(HHDM, POOL, 4 * 4096);
    assert_eq!(memory.cr3, POOL + 4096);
    assert!(!memory.allocator.is_free(0));
    assert!(!memory.allocator.is_free(1));
    assert!(!memory.allocator.is_free(2));
    assert!(memory.allocator.is_free(3));
    let root = &memory.frames[1];
    assert_eq!(root.entries[256], Entry((POOL as u64 + 2 * 4096) | 0b11));
    assert_eq!(root.entries.iter().filter(|e| e.0 != 0).count(), 1);
    let third = &memory.frames[2];
    assert_eq!(third.entries[1], Entry(0x4000_0000 | 0b1000_0011));
    assert_eq!(third.entries.iter().filter(|e| e.0 != 0).count(), 1);
    for frame in 0..4 {
        let address = POOL + frame * 4096;
        assert_eq!(translate(&memory, POOL + 4096, HHDM + address + 0x18), Some(address + 0x18));
    }
    assert_eq!(memory.new_root(), Some(POOL + 3 * 4096));
    assert_eq!(memory.frames[3].entries[256], memory.frames[1].entries[256]);
    assert_eq!(memory.frames[3].entries.iter().filter(|e| e.0 != 0).count(), 1);
    assert_eq!(memory.new_root(), None);
    assert_eq!(memory.frame_index(POOL + 2 * 4096), 2);
    assert_eq!(memory.frame_address(1), POOL + 4096);
}

#[test]
fn active_table_is_found_through_the_table_register() {
    let (mut memory, root) = memory();
    let other = memory.new_root().unwrap();
    assert_eq!(get_active_table(&memory).entries, memory.frames[1].entries);
    PageTable::map(&mut memory, other, 0x7000, 0x9000);
    assert_eq!(translate(&memory, root, 0x7000), None);
    set_active_table(&mut memory, HHDM + other);
    assert_eq!(memory.cr3, other);
    assert_eq!(get_active_table(&memory).translate(&memory, 0x7000), Some(0x9000));
    assert_eq!(get_active_table(&memory).translate(&memory, HHDM + root), Some(root));
    PageTable::map(&mut memory, other, 0x8000, 0xa000);
    assert_eq!(translate(&memory, other, 0x8000), Some(0xa000));
}

#[test]
fn missing_tables_are_counted_along_the_walk() {
    let (mut memory, root) = memory();
    assert_eq!(PageTable::missing_tables(&memory, root, 0x5000), Some(3));
    assert_eq!(PageTable::missing_tables(&memory, root, HHDM + 0x5000), Some(2));
    assert_eq!(PageTable::missing_tables(&memory, root, HHDM + POOL), None);
    PageTable::map(&mut memory, root, 0x5000, 0x1000);
    assert_eq!(PageTable::missing_tables(&memory, root, 0x6000), Some(0));
    assert_eq!(PageTable::missing_tables(&memory, root, 0x20_0000), Some(1));
    assert_eq!(PageTable::missing_tables(&memory, root, 0x4000_0000), Some(2));
}

#[test]
fn try_map_says_why_a_page_cannot_be_mapped() {
    let mut memory = PhysicalMemory::new(HHDM, POOL, 5 * 4096);
    let root = memory.cr3;
    assert_eq!(PageTable::try_map(&mut memory, root, 0x5001, 0x1000).err(), Some(MapError::Misaligned));
    assert_eq!(PageTable::try_map(&mut memory, root, 0x5000, 0x1800).err(), Some(MapError::Misaligned));
    assert_eq!(
        PageTable::try_map(&mut memory, root, 0x5000, 0x8_0000_0000_0000).err(),
        Some(MapError::OutOfRange)
    );
    assert_eq!(
        PageTable::try_map(&mut memory, root, HHDM + POOL, 0x1000).err(),
        Some(MapError::HugePage)
    );
    assert_eq!(PageTable::try_map(&mut memory, root, 0x5000, 0x1000).err(), Some(MapError::OutOfMemory));
    assert_eq!(memory.allocator.calculate_free_space(), 2 * 4096);
    assert_eq!(PageTable::try_map(&mut memory, root, HHDM + 0x5000, 0x5000).ok().copied(), Some(Entry(0x5001)));
    assert_eq!(translate(&memory, root, HHDM + 0x5000), Some(0x5000));
    assert_eq!(PageTable::try_map(&mut memory, root, HHDM + 0x6000, 0x9000).ok().copied(), Some(Entry(0x9001)));
    assert_eq!(PageTable::map_device(&mut memory, root, HHDM + 0x7000, 0x7000), Ok(()));
    assert_eq!(memory.frames[4].entries[7], Entry(0x7000 | 0x1b));
    assert_eq!(PageTable::map_device(&mut memory, root, 0x7000, 0x7000), Err(MapError::OutOfMemory));
}
