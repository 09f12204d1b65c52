//! The bump heap: allocation, alignment, exhaustion and the
//! all-at-once reclaim when the last allocation is returned.

use kernel_core::addressing::KERNEL_BASE;
use kernel_core::frame_alloc::PageFrameAllocator;
use kernel_core::mm::BumpAllocator;
use kernel_core::multiboot::MmapEntry;
use kernel_core::page_alloc::PageAllocator;
use kernel_core::paging::PAGE_SIZE;

fn heap_of_pages(no_pages: usize) -> BumpAllocator {
    let map = vec![MmapEntry { size: 20, addr: 0x200000, len: 32 * PAGE_SIZE, typ: 1 }];
    let mut fa = PageFrameAllocator::initialize(map).unwrap();
    let pa = PageAllocator::new_kernel(511, 510, KERNEL_BASE, 0x1000);
    let mut heap = BumpAllocator::new();
    heap.init(pa, &mut fa, no_pages).unwrap();
    heap
}

#[test]
fn allocations_advance_and_align() {
    let mut heap = heap_of_pages(6);
    let a = heap.allocate(10, 8).unwrap();
    assert_eq!(a, KERNEL_BASE);
    let b = heap.allocate(100, 16).unwrap();
    assert_eq!(b % 16, 0);
    assert_eq!(b, KERNEL_BASE + 16);
    let c = heap.allocate(1, 1).unwrap();
    assert_eq!(c, b + 100);
}

#[test]
fn bump_reset_after_matching_deallocs() {
    // allocations followed by the same number of deallocations, in any
    // order, return the bump cursor to the heap start: the next
    // allocation starts over at the first address
    let mut heap = heap_of_pages(6);
    let first = heap.allocate(24, 8).unwrap();
    let _ = heap.allocate(100, 8).unwrap();
    let _ = heap.allocate(7, 1).unwrap();
    heap.dealloc();
    heap.dealloc();
    heap.dealloc();
    let again = heap.allocate(24, 8).unwrap();
    assert_eq!(again, first);
}

#[test]
fn failing_allocation_leaves_cursor_alone() {
    let mut heap = heap_of_pages(1);
    let a = heap.allocate(16, 8).unwrap();
    // more than the arena holds: fails
    assert!(heap.allocate(2 * PAGE_SIZE, 8).is_none());
    // the cursor did not move: the next fit continues right after the
    // first allocation
    let b = heap.allocate(16, 8).unwrap();
    assert_eq!(b, a + 16);
}

#[test]
fn arena_size_is_respected() {
    let mut heap = heap_of_pages(1);
    // the arena spans one page less one byte of usable end bound
    assert!(heap.allocate(PAGE_SIZE, 1).is_none());
    assert!(heap.allocate(PAGE_SIZE - 1, 1).is_some());
}

#[test]
fn heap_init_fails_without_frames() {
    let map = vec![MmapEntry { size: 20, addr: 0x200000, len: 4 * PAGE_SIZE, typ: 1 }];
    let mut fa = PageFrameAllocator::initialize(map).unwrap();
    let pa = PageAllocator::new_kernel(511, 510, KERNEL_BASE, 0x1000);
    let mut heap = BumpAllocator::new();
    // only two frames are free but six pages are asked for
    assert!(heap.init(pa, &mut fa, 6).is_err());
    assert_eq!(fa.free_frames(), 2);
}
