//! Behaviour of the physical frame allocator over concrete memory maps.

use kernel_core::frame_alloc::PageFrameAllocator;
use kernel_core::multiboot::MmapEntry;
use kernel_core::paging::PAGE_SIZE;

fn one_region_map(addr: u64, frames: u64) -> Vec<MmapEntry> {
    vec![MmapEntry { size: 20, addr, len: frames * PAGE_SIZE, typ: 1 }]
}

#[test]
fn boot_sequence_sixteen_frames() {
    // one available region of sixteen frames: the first two are
    // reserved for the kernel image, so the first allocation is the
    // frame two frame-sizes past the region start
    let start = 0x200000u64;
    let mut fa = PageFrameAllocator::initialize(one_region_map(start, 16)).unwrap();
    assert_eq!(fa.total_page_count(), 16);
    let frame = fa.alloc_next().unwrap();
    assert_eq!(frame.start_address.as_u64(), start + 2 * PAGE_SIZE);
}

#[test]
fn misaligned_region_is_trimmed_to_whole_frames() {
    // a region that does not start on a frame boundary only counts the
    // whole frames inside it: sixteen frame-sizes of bytes starting
    // half a frame up hold fifteen whole frames, the first one at the
    // rounded-up boundary
    let mut fa = PageFrameAllocator::initialize(one_region_map(0x100000, 16)).unwrap();
    assert_eq!(fa.total_page_count(), 15);
    let frame = fa.alloc_next().unwrap();
    assert_eq!(frame.start_address.as_u64(), 0x200000 + 2 * PAGE_SIZE);
}

#[test]
fn overlapping_regions_are_rejected() {
    let map = vec![
        MmapEntry { size: 20, addr: 0x200000, len: 4 * PAGE_SIZE, typ: 1 },
        MmapEntry { size: 20, addr: 0x400000, len: 4 * PAGE_SIZE, typ: 1 },
    ];
    assert!(PageFrameAllocator::initialize(map).is_none());
}

#[test]
fn exhaustion_after_total_pages_allocations() {
    // allocating every frame once leaves nothing: the next call fails
    let mut fa = PageFrameAllocator::initialize(one_region_map(0x200000, 8)).unwrap();
    // indices 0 and 1 are pre-marked used, so six allocations succeed
    for _ in 0..6 {
        assert!(fa.alloc_next().is_some());
    }
    assert!(fa.alloc_next().is_none());
    assert_eq!(fa.free_frames(), 0);
}

#[test]
fn live_frames_never_alias() {
    // no two live frames ever share a physical address
    let mut fa = PageFrameAllocator::initialize(one_region_map(0x200000, 10)).unwrap();
    let mut seen: Vec<u64> = Vec::new();
    while let Some(f) = fa.alloc_next() {
        let a = f.start_address.as_u64();
        assert!(!seen.contains(&a));
        seen.push(a);
    }
    assert_eq!(seen.len(), 8);
}

#[test]
fn freed_frame_is_reused_first() {
    let mut fa = PageFrameAllocator::initialize(one_region_map(0x200000, 16)).unwrap();
    let a = fa.alloc_next().unwrap();
    let b = fa.alloc_next().unwrap();
    assert_ne!(a.start_address.as_u64(), b.start_address.as_u64());
    fa.free(a);
    let c = fa.alloc_next().unwrap();
    // the bitmap scan starts from the lowest index, so the freed frame
    // comes back first
    assert_eq!(c.start_address.as_u64(), a.start_address.as_u64());
}

#[test]
fn regions_below_frame_size_do_not_count() {
    let map = vec![
        MmapEntry { size: 20, addr: 0x200000, len: PAGE_SIZE / 2, typ: 1 },
        MmapEntry { size: 20, addr: 0x400000, len: 4 * PAGE_SIZE, typ: 1 },
    ];
    let fa = PageFrameAllocator::initialize(map).unwrap();
    assert_eq!(fa.total_page_count(), 4);
}

#[test]
fn reserved_regions_do_not_count() {
    let map = vec![
        MmapEntry { size: 20, addr: 0x200000, len: 4 * PAGE_SIZE, typ: 2 },
        MmapEntry { size: 20, addr: 0xA00000, len: 4 * PAGE_SIZE, typ: 1 },
    ];
    let mut fa = PageFrameAllocator::initialize(map).unwrap();
    assert_eq!(fa.total_page_count(), 4);
    // the reserved region contributes no frame addresses
    let f = fa.alloc_next().unwrap();
    assert_eq!(f.start_address.as_u64(), 0xA00000 + 2 * PAGE_SIZE);
}

#[test]
fn bitmap_length_covers_every_frame() {
    let fa = PageFrameAllocator::initialize(one_region_map(0x200000, 16)).unwrap();
    assert_eq!(fa.get_bitmap_len(), 16 / 8 + 1);
}

#[test]
fn frames_span_multiple_regions_in_order() {
    let map = vec![
        MmapEntry { size: 20, addr: 0x200000, len: 2 * PAGE_SIZE, typ: 1 },
        MmapEntry { size: 20, addr: 0x2000000, len: 2 * PAGE_SIZE, typ: 1 },
    ];
    let mut fa = PageFrameAllocator::initialize(map).unwrap();
    assert_eq!(fa.total_page_count(), 4);
    // indices 0 and 1 cover the first region; index 2 starts the second
    let f = fa.alloc_next().unwrap();
    assert_eq!(f.start_address.as_u64(), 0x2000000);
}
