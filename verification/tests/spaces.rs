//! Address-space behaviour: page-table entries, page allocation with
//! its all-or-nothing promise, translation and isolation.

use kernel_core::addressing::{VirtAddr, KERNEL_BASE};
use kernel_core::frame_alloc::PageFrameAllocator;
use kernel_core::multiboot::MmapEntry;
use kernel_core::page_alloc::{translate_virtual_address, PageAllocator};
use kernel_core::paging::{
    PageTable, PageTableEntry, HUGE_PAGE, PAGE_SIZE, PRESENT, WRITABLE,
};

fn frames_of(count: u64) -> PageFrameAllocator {
    let map = vec![MmapEntry { size: 20, addr: 0x200000, len: count * PAGE_SIZE, typ: 1 }];
    PageFrameAllocator::initialize(map).unwrap()
}

#[test]
fn entry_packs_address_and_flags() {
    let mut e = PageTableEntry::new();
    assert!(e.is_unused());
    assert!(!e.is_present());
    e.set_addr(0x400000, PRESENT | WRITABLE | HUGE_PAGE);
    assert!(e.is_present());
    assert!(!e.is_unused());
    assert_eq!(e.addr().as_u64(), 0x400000);
    assert_eq!(e.flags(), PRESENT | WRITABLE | HUGE_PAGE);
    e.set_flags(PRESENT);
    assert_eq!(e.addr().as_u64(), 0x400000);
    assert_eq!(e.flags(), PRESENT);
    e.set_unused();
    assert!(e.is_unused());
}

#[test]
fn fresh_table_is_empty() {
    let t = PageTable::new();
    for i in 0..512 {
        assert!(t.entry_at(i).is_unused());
    }
}

#[test]
fn kernel_space_allocates_from_its_slice() {
    let mut fa = frames_of(16);
    let mut pa = PageAllocator::new_kernel(511, 510, KERNEL_BASE, 0x1000);
    let page = pa.alloc_next_page(&mut fa, 2).unwrap();
    // the first run starts at leaf index zero of the (511, 510) slice,
    // which is exactly the kernel base address
    assert_eq!(page.start_address.as_u64(), KERNEL_BASE);
    // the backing frames are the first two free ones
    let phys = pa.translate_address(page.start_address).unwrap();
    assert_eq!(phys.as_u64(), 0x200000 + 2 * PAGE_SIZE);
}

#[test]
fn all_or_nothing_on_frame_exhaustion() {
    // four tracked frames, two of them reserved: a three-page request
    // must fail without any net new mappings or lost frames
    let mut fa = frames_of(4);
    assert_eq!(fa.free_frames(), 2);
    let mut pa = PageAllocator::new_kernel(511, 510, KERNEL_BASE, 0x1000);
    assert!(pa.alloc_next_page(&mut fa, 3).is_none());
    assert_eq!(fa.free_frames(), 2);
    let va = VirtAddr::from_table_indexes(511, 510, 0);
    assert!(pa.translate_address(va).is_none());
    // the same space can still serve what fits
    assert!(pa.alloc_next_page(&mut fa, 2).is_some());
    assert_eq!(fa.free_frames(), 0);
}

#[test]
fn free_vaddr_returns_the_frame() {
    let mut fa = frames_of(8);
    let mut pa = PageAllocator::new_kernel(511, 510, KERNEL_BASE, 0x1000);
    let page = pa.alloc_next_page(&mut fa, 1).unwrap();
    let before = fa.free_frames();
    pa.free_vaddr(&mut fa, page.start_address);
    assert_eq!(fa.free_frames(), before + 1);
    assert!(pa.translate_address(page.start_address).is_none());
    // freeing again, or freeing an unmapped address, changes nothing
    pa.free_vaddr(&mut fa, page.start_address);
    assert_eq!(fa.free_frames(), before + 1);
}

#[test]
fn translation_adds_page_offset() {
    let mut fa = frames_of(8);
    let mut pa = PageAllocator::new_kernel(511, 510, KERNEL_BASE, 0x1000);
    let page = pa.alloc_next_page(&mut fa, 1).unwrap();
    let inside = VirtAddr::new(page.start_address.as_u64() + 0x1234);
    let phys = translate_virtual_address(&pa, inside).unwrap();
    assert_eq!(phys.as_u64(), 0x200000 + 2 * PAGE_SIZE + 0x1234);
}

#[test]
fn user_spaces_are_isolated() {
    // two user address spaces never report the same reserved index
    // pair, and an address valid in one does not resolve in the other
    let mut fa = frames_of(32);
    let kernel_pml4 = PageTable::new();
    let mut a = PageAllocator::new_user(KERNEL_BASE, 0, 0, &kernel_pml4, &mut fa).unwrap();
    let b = PageAllocator::new_user(KERNEL_BASE, 0, 1, &kernel_pml4, &mut fa).unwrap();
    assert_ne!(a.reserved_indexes(), b.reserved_indexes());
    assert_ne!(a.root_table(), b.root_table());
    let page = a.alloc_next_page(&mut fa, 1).unwrap();
    assert!(a.translate_address(page.start_address).is_some());
    assert!(b.translate_address(page.start_address).is_none());
}

#[test]
fn user_space_teardown_restores_frames() {
    let mut fa = frames_of(16);
    let kernel_pml4 = PageTable::new();
    let before = fa.free_frames();
    let mut a = PageAllocator::new_user(KERNEL_BASE, 0, 0, &kernel_pml4, &mut fa).unwrap();
    assert_eq!(fa.free_frames(), before - 3);
    let page = a.alloc_next_page(&mut fa, 1).unwrap();
    assert_eq!(fa.free_frames(), before - 4);
    a.free_vaddr(&mut fa, page.start_address);
    a.free_owned_tables(&mut fa);
    assert_eq!(fa.free_frames(), before);
}

#[test]
fn user_space_needs_three_frames() {
    // with fewer than three free frames no user space can be built,
    // and nothing is lost in the attempt
    let mut fa = frames_of(4);
    assert_eq!(fa.free_frames(), 2);
    let kernel_pml4 = PageTable::new();
    assert!(PageAllocator::new_user(KERNEL_BASE, 0, 0, &kernel_pml4, &mut fa).is_err());
    assert_eq!(fa.free_frames(), 2);
}
