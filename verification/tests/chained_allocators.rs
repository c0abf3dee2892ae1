use fajr_kernel::layout::Layout;
use fajr_kernel::memory::{
    align_down, ChainedPageAllocators, MemoryRegion, Reallocation, RegionKind,
};

const HHDM: usize = 0xFFFF_8000_0000_0000;

fn usable(base: usize, pages: usize) -> MemoryRegion {
    MemoryRegion { base, length: pages * 4096, kind: RegionKind::Usable }
}

fn layout(size: usize) -> Layout {
    Layout::from_size_align(size, 4096).unwrap()
}

fn chain() -> ChainedPageAllocators {
    let regions = vec![
        usable(0x10_0000, 4),
        MemoryRegion { base: 0x20_0000, length: 64 * 4096, kind: RegionKind::Reserved },
        usable(0x30_0000, 16),
        usable(0x40_0000, 1),
        usable(0x50_0000, 8),
        MemoryRegion { base: 0x60_0000, length: 64 * 4096, kind: RegionKind::Framebuffer },
        usable(0x70_0000, 16),
    ];
    ChainedPageAllocators::new(&regions, HHDM)
}

#[test]
fn chain_holds_the_eligible_regions_largest_first() {
    let chain = chain();
    let regions: Vec<(usize, usize)> =
        chain.allocators.iter().map(|a| (a.region_start - HHDM, a.page_count)).collect();
    assert_eq!(regions, vec![(0x30_0000, 16), (0x70_0000, 16), (0x50_0000, 8), (0x10_0000, 4)]);
    assert_eq!(chain.calculate_free_space(), (15 + 15 + 7 + 3) * 4096);
}

#[test]
fn chain_takes_at_most_128_regions() {
    let regions: Vec<MemoryRegion> = (0..140).map(|i| usable(0x100_0000 * (i + 1), 2 + i)).collect();
    let chain = ChainedPageAllocators::new(&regions, 0);
    assert_eq!(chain.allocators.len(), 128);
    assert_eq!(chain.allocators[0].page_count, 129);
    assert_eq!(chain.allocators[127].page_count, 2);
}

#[test]
fn an_address_belongs_to_at_most_one_allocator() {
    let chain = chain();
    for address in (0x0F_0000..0x80_0000).step_by(0x800) {
        let owners = chain.allocators.iter().filter(|a| a.contains(HHDM + address)).count();
        assert!(owners <= 1);
    }
    assert_eq!(chain.allocators.iter().filter(|a| a.contains(HHDM + 0x30_0000)).count(), 1);
}

#[test]
fn chain_allocates_from_the_first_allocator_with_room() {
    let mut chain = chain();
    assert_eq!(chain.allocate(layout(15 * 4096)), Some(HHDM + 0x30_1000));
    assert_eq!(chain.allocate(layout(15 * 4096)), Some(HHDM + 0x70_1000));
    assert_eq!(chain.allocate(layout(4096)), Some(HHDM + 0x50_1000));
    assert_eq!(chain.allocate(layout(7 * 4096)), None);
    assert_eq!(chain.allocate(layout(3 * 4096)), Some(HHDM + 0x50_2000));
    assert_eq!(chain.calculate_free_space(), (3 + 3) * 4096);
}

#[test]
fn chain_gives_a_block_back_to_its_region() {
    let mut chain = chain();
    let first = chain.allocate(layout(15 * 4096)).unwrap();
    let second = chain.allocate(layout(2 * 4096)).unwrap();
    assert_eq!(second, HHDM + 0x70_1000);
    chain.dealloc(second, layout(2 * 4096));
    assert_eq!(chain.allocators[1].calculate_free_space(), 15 * 4096);
    assert_eq!(chain.allocators[0].calculate_free_space(), 0);
    chain.dealloc(first, layout(15 * 4096));
    assert_eq!(chain.calculate_free_space(), (15 + 15 + 7 + 3) * 4096);
    chain.dealloc(0x1000, layout(4096));
    assert_eq!(chain.calculate_free_space(), (15 + 15 + 7 + 3) * 4096);
}

#[test]
fn realloc_resizes_in_place_when_it_can() {
    let mut chain = chain();
    let block = chain.allocate(layout(2 * 4096)).unwrap();
    assert_eq!(
        chain.realloc(block, layout(2 * 4096), 5 * 4096),
        Reallocation::InPlace { address: block }
    );
    assert_eq!(chain.allocators[0].calculate_free_space(), 10 * 4096);
    assert_eq!(
        chain.realloc(block, layout(5 * 4096), 4096),
        Reallocation::InPlace { address: block }
    );
    assert_eq!(chain.allocators[0].calculate_free_space(), 14 * 4096);
}

#[test]
fn realloc_moves_a_block_that_cannot_grow() {
    let mut chain = chain();
    let first = chain.allocate(layout(4096)).unwrap();
    let second = chain.allocate(layout(4096)).unwrap();
    assert_eq!((first, second), (HHDM + 0x30_1000, HHDM + 0x30_2000));
    assert_eq!(
        chain.realloc(first, layout(4096), 3 * 4096),
        Reallocation::Moved { from: first, to: HHDM + 0x30_3000, length: 4096 }
    );
    assert!(chain.allocators[0].is_free(1));
    assert!(!chain.allocators[0].is_free(2));
    assert!(!chain.allocators[0].is_free(5));
    assert!(chain.allocators[0].is_free(6));
}

#[test]
fn realloc_fails_without_a_region_or_without_room() {
    let mut chain = chain();
    assert_eq!(chain.realloc(0x1000, layout(4096), 8192), Reallocation::Failed);
    let first = chain.allocate(layout(4096)).unwrap();
    let _second = chain.allocate(layout(4096)).unwrap();
    let before = chain.calculate_free_space();
    assert_eq!(chain.realloc(first, layout(4096), 64 * 4096), Reallocation::Failed);
    assert_eq!(chain.calculate_free_space(), before);
}

#[test]
fn align_down_rounds_to_a_multiple() {
    assert_eq!(align_down(0xfec0_0123, 4096), 0xfec0_0000);
    assert_eq!(align_down(4096, 4096), 4096);
    assert_eq!(align_down(4095, 4096), 0);
    assert_eq!(align_down(10, 3), 9);
}
