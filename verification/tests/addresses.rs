//! Address types and alignment arithmetic on concrete values.

use kernel_core::addressing::{PhysAddr, VirtAddr, KERNEL_BASE};
use kernel_core::align::{align_down, align_up, is_aligned};
use kernel_core::paging::{Frame, Page, PAGE_SIZE};

#[test]
fn align_round_trip_samples() {
    // for an address and a power-of-two alignment, rounding up then
    // stepping one byte back and rounding down never overshoots
    for &(a, k) in &[(0u64, 8u64), (1, 8), (7, 8), (8, 8), (0x1fffff, 0x200000), (
        0x345678,
        0x200000,
    ), (0x400000, 0x200000)] {
        let up = align_up(a, k);
        assert!(a <= up);
        if up > 0 {
            assert!(align_down(up - 1, k) <= a);
        }
        assert!(is_aligned(align_down(a, k), k));
    }
    assert_eq!(align_up(0x100001, 0x200000), 0x200000);
    assert_eq!(align_down(0x3fffff, 0x200000), 0x200000);
    assert!(is_aligned(0x400000, 0x200000));
    assert!(!is_aligned(0x400001, 0x200000));
}

#[test]
fn virt_addr_canonical_forms() {
    // low half as-is
    assert_eq!(VirtAddr::try_new(0x1234).unwrap().as_u64(), 0x1234);
    // high half as-is
    assert_eq!(
        VirtAddr::try_new(0xFFFF_8000_0000_0000).unwrap().as_u64(),
        0xFFFF_8000_0000_0000
    );
    // bit 47 set with empty top bits: sign extension fills them
    assert_eq!(
        VirtAddr::try_new(0x0000_8000_0000_0000).unwrap().as_u64(),
        0xFFFF_8000_0000_0000
    );
    // data in bits 48..64 that is no sign extension is refused
    assert!(VirtAddr::try_new(0x0001_0000_0000_0000).is_none());
}

#[test]
fn virt_addr_table_indexes() {
    let a = VirtAddr::new(KERNEL_BASE);
    assert_eq!(a.p4_index(), 511);
    assert_eq!(a.p3_index(), 510);
    assert_eq!(a.p2_index(), 0);
    assert_eq!(a.page_offset(), 0);
    let b = VirtAddr::from_table_indexes(511, 510, 0);
    assert_eq!(b.as_u64(), KERNEL_BASE);
    let c = VirtAddr::from_table_indexes(0, 1, 2);
    assert_eq!(c.as_u64(), 0x4000_0000 + 2 * 0x20_0000);
    assert_eq!(c.p4_index(), 0);
    assert_eq!(c.p3_index(), 1);
    assert_eq!(c.p2_index(), 2);
}

#[test]
fn phys_addr_bounds() {
    assert_eq!(PhysAddr::try_new(0x1000).unwrap().as_u64(), 0x1000);
    assert!(PhysAddr::try_new(1 << 52).is_none());
    assert_eq!(PhysAddr::new_truncate((1 << 52) | 0x1234).as_u64(), 0x1234);
    let p = PhysAddr::new(0x345678);
    assert_eq!(p.align_down(0x200000).as_u64(), 0x200000);
    assert!(!p.is_aligned(0x200000));
}

#[test]
fn page_and_frame_construction() {
    let aligned = VirtAddr::new(2 * PAGE_SIZE);
    let page = Page::from_start_address(aligned).unwrap();
    assert_eq!(page.start_address.as_u64(), 2 * PAGE_SIZE);
    let odd = VirtAddr::new(2 * PAGE_SIZE + 8);
    assert!(Page::from_start_address(odd).is_none());
    assert_eq!(
        Page::containing_address(odd).start_address.as_u64(),
        2 * PAGE_SIZE
    );
    let pf = PhysAddr::new(3 * PAGE_SIZE);
    let frame = Frame::from_start_address(pf).unwrap();
    assert_eq!(frame.start_address.as_u64(), 3 * PAGE_SIZE);
    assert!(Frame::from_start_address(PhysAddr::new(3 * PAGE_SIZE + 1)).is_none());
    assert_eq!(
        Frame::containing_address(PhysAddr::new(3 * PAGE_SIZE + 77)).start_address.as_u64(),
        3 * PAGE_SIZE
    );
}
