use fajr_kernel::allocators::page_allocator::PageAllocator;
use fajr_kernel::layout::{ceil_div, Layout, MIN_PAGE_SIZE};

const START: usize = 0x10_0000;

fn layout(size: usize) -> Layout {
    Layout::from_size_align(size, 1).unwrap()
}

#[test]
fn bitmap_reservation_of_one_mebibyte() {
    let allocator = PageAllocator::new(START, 1_048_576);
    assert_eq!(allocator.page_count, 256);
    assert!(!allocator.is_free(0));
    for page in 1..256 {
        assert!(allocator.is_free(page));
    }
    assert_eq!(allocator.calculate_free_space(), 1_044_480);
}

#[test]
fn set_bits_after_reservation_match_the_formula() {
    for pages in [0usize, 1, 2, 7, 8, 9, 255, 256, 4096 * 8, 4096 * 8 + 1, 70_000] {
        let allocator = PageAllocator::new(START, pages * 4096 + 17);
        let reserved = ceil_div(ceil_div(pages, 8), 4096);
        let free = (0..pages).filter(|&i| allocator.is_free(i)).count();
        assert_eq!(free, pages - reserved);
        assert_eq!(allocator.calculate_free_space(), (pages - reserved) * 4096);
    }
}

#[test]
fn bitmap_of_a_large_region_takes_two_pages() {
    let pages = 4096 * 8 + 1;
    let allocator = PageAllocator::new(START, pages * 4096);
    assert!(!allocator.is_free(0));
    assert!(!allocator.is_free(1));
    assert!(allocator.is_free(2));
}

#[test]
fn can_be_used_needs_a_page_beside_the_bitmap() {
    assert!(!PageAllocator::can_be_used(0));
    assert!(!PageAllocator::can_be_used(1));
    assert!(!PageAllocator::can_be_used(4095));
    assert!(!PageAllocator::can_be_used(4096));
    assert!(!PageAllocator::can_be_used(8191));
    assert!(PageAllocator::can_be_used(8192));
    assert!(PageAllocator::can_be_used(1_048_576));
}

#[test]
fn alloc_and_dealloc_two_pages() {
    let mut allocator = PageAllocator::new(START, 1_048_576);
    let block = allocator.allocate(layout(8192));
    assert_eq!(block, Some(START + 4096));
    assert!(!allocator.is_free(1));
    assert!(!allocator.is_free(2));
    assert!(allocator.is_free(3));
    assert_eq!(allocator.calculate_free_space(), 253 * 4096);
    allocator.dealloc(START + 4096, layout(8192));
    assert!(allocator.is_free(1));
    assert!(allocator.is_free(2));
    assert_eq!(allocator.calculate_free_space(), 1_044_480);
    assert_eq!(allocator.allocate(layout(8192)), Some(START + 4096));
}

#[test]
fn alloc_takes_the_first_run_that_is_long_enough() {
    let mut allocator = PageAllocator::new(START, 16 * 4096);
    let a = allocator.allocate(layout(4096)).unwrap();
    let b = allocator.allocate(layout(4096)).unwrap();
    let c = allocator.allocate(layout(4096)).unwrap();
    assert_eq!((a, b, c), (START + 4096, START + 2 * 4096, START + 3 * 4096));
    allocator.dealloc(b, layout(4096));
    assert_eq!(allocator.allocate(layout(2 * 4096)), Some(START + 4 * 4096));
    assert_eq!(allocator.allocate(layout(1)), Some(b));
}

#[test]
fn alloc_fails_when_no_run_fits() {
    let mut allocator = PageAllocator::new(START, 4 * 4096);
    assert_eq!(allocator.allocate(layout(4 * 4096)), None);
    assert_eq!(allocator.calculate_free_space(), 3 * 4096);
    assert_eq!(allocator.allocate(layout(3 * 4096)), Some(START + 4096));
    assert_eq!(allocator.allocate(layout(1)), None);
}

#[test]
fn alloc_of_nothing_takes_nothing() {
    let mut allocator = PageAllocator::new(START, 4 * 4096);
    assert_eq!(allocator.allocate(layout(0)), Some(START));
    assert_eq!(allocator.calculate_free_space(), 3 * 4096);
}

#[test]
fn resize_with_the_same_page_count_changes_nothing() {
    let mut allocator = PageAllocator::new(START, 16 * 4096);
    let block = allocator.allocate(layout(5000)).unwrap();
    assert!(allocator.resize(block, layout(5000), 8192));
    assert_eq!(allocator.calculate_free_space(), 13 * 4096);
}

#[test]
fn resize_to_fewer_pages_gives_the_tail_back() {
    let mut allocator = PageAllocator::new(START, 16 * 4096);
    let block = allocator.allocate(layout(3 * 4096)).unwrap();
    assert!(allocator.resize(block, layout(3 * 4096), 4096));
    assert!(!allocator.is_free(1));
    assert!(allocator.is_free(2));
    assert!(allocator.is_free(3));
    assert_eq!(allocator.calculate_free_space(), 14 * 4096);
}

#[test]
fn resize_to_more_pages_takes_free_pages_behind() {
    let mut allocator = PageAllocator::new(START, 16 * 4096);
    let block = allocator.allocate(layout(4096)).unwrap();
    assert!(allocator.resize(block, layout(4096), 3 * 4096));
    assert!(!allocator.is_free(2));
    assert!(!allocator.is_free(3));
    assert!(allocator.is_free(4));
}

#[test]
fn resize_fails_when_the_pages_behind_are_taken() {
    let mut allocator = PageAllocator::new(START, 16 * 4096);
    let first = allocator.allocate(layout(4096)).unwrap();
    let _second = allocator.allocate(layout(4096)).unwrap();
    assert!(!allocator.resize(first, layout(4096), 2 * 4096));
    assert_eq!(allocator.calculate_free_space(), 13 * 4096);
}

#[test]
fn resize_fails_at_the_end_of_the_region() {
    let mut allocator = PageAllocator::new(START, 4 * 4096);
    let block = allocator.allocate(layout(3 * 4096)).unwrap();
    assert!(!allocator.resize(block, layout(3 * 4096), 4 * 4096));
}

#[test]
fn contains_is_half_open() {
    let allocator = PageAllocator::new(START, 4 * 4096 + 100);
    assert!(!allocator.contains(START - 1));
    assert!(allocator.contains(START));
    assert!(allocator.contains(START + 4 * 4096 - 1));
    assert!(!allocator.contains(START + 4 * 4096));
}

#[test]
fn page_addresses_and_indices_agree() {
    let allocator = PageAllocator::new(START, 8 * 4096);
    assert_eq!(allocator.get_page(3), START + 3 * MIN_PAGE_SIZE);
    assert_eq!(allocator.get_page_index_of(START + 3 * MIN_PAGE_SIZE), 3);
    assert_eq!(allocator.get_page_index_of(START), 0);
}

#[test]
fn set_free_bit_changes_one_page_only() {
    let mut allocator = PageAllocator::new(START, 32 * 4096);
    allocator.set_free_bit(9, false);
    for page in 1..32 {
        assert_eq!(allocator.is_free(page), page != 9);
    }
    allocator.set_free_bit(9, true);
    assert!(allocator.is_free(9));
    allocator.set_free_bit(40, true);
    assert!(!allocator.is_free(40));
}

#[test]
fn layout_checks_its_alignment() {
    assert_eq!(Layout::from_size_align(10, 0), None);
    assert_eq!(Layout::from_size_align(10, 3), None);
    assert_eq!(Layout::from_size_align(usize::MAX, 8), None);
    let padded = Layout::from_size_align(10, 8).unwrap().pad_to_align();
    assert_eq!((padded.size, padded.align), (16, 8));
    assert_eq!(Layout::page(), Layout { size: 4096, align: 4096 });
    assert_eq!(ceil_div(0, 8), 0);
    assert_eq!(ceil_div(9, 8), 2);
    assert_eq!(ceil_div(16, 8), 2);
}
