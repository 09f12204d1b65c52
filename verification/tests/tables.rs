//! Descriptor tables, interrupt vectors, controller ranges and the
//! boot-information data model.

use kernel_core::gdt::{tss_segment, TaskStateSegment, TSS_SIZE};
use kernel_core::interrupts::{
    DescriptorTablePointer, Entry, InterruptDescriptorTable, InterruptIndex,
};
use kernel_core::multiboot::{MmapType, MultibootFramebuffer};
use kernel_core::pic::{ChainedPics, PIC_1_OFFSET, PIC_2_OFFSET};

#[test]
fn idt_starts_empty() {
    let idt = InterruptDescriptorTable::new();
    assert_eq!(idt.interrupts.len(), 224);
    assert_eq!(idt.breakpoint.handler_addr().as_u64(), 0);
    assert_eq!(idt.interrupts[0].handler_addr().as_u64(), 0);
}

#[test]
fn entry_options_bits() {
    let mut e = Entry::missing();
    assert_eq!(e.options.raw(), 0xE00);
    e.options.set_present(true);
    assert_eq!(e.options.raw(), 0x8E00);
    e.options.set_IST(1);
    assert_eq!(e.options.raw(), 0x8E01);
    e.options.set_privilege_level(3);
    assert_eq!(e.options.raw(), 0xEE01);
    e.options.disable_interrupts(false);
    assert_eq!(e.options.raw(), 0xEF01);
    e.options.set_present(false);
    assert_eq!(e.options.raw(), 0x6F01);
    let dtp = DescriptorTablePointer { limit: 0xFFF, base: 0 };
    assert_eq!(dtp.limit, 0xFFF);
}

#[test]
fn interrupt_vector_numbers() {
    assert_eq!(InterruptIndex::Timer.as_u8(), 32);
    assert_eq!(InterruptIndex::Syscall.as_u8(), 0x80);
    assert_eq!(InterruptIndex::Timer.as_usize(), 32);
    assert_eq!(InterruptIndex::Timer.IRQ_index(), 0);
    assert_eq!(InterruptIndex::Syscall.IRQ_index(), 0x60);
}

#[test]
fn chained_pics_vector_ranges() {
    let pics = ChainedPics::new(PIC_1_OFFSET, PIC_2_OFFSET);
    assert!(pics.handles_interrupt(32));
    assert!(pics.handles_interrupt(39));
    assert!(pics.handles_interrupt(40));
    assert!(pics.handles_interrupt(47));
    assert!(!pics.handles_interrupt(31));
    assert!(!pics.handles_interrupt(48));
    assert!(!pics.handles_interrupt(0x80));
}

#[test]
fn tss_defaults_and_segment_packing() {
    let tss = TaskStateSegment::new();
    assert_eq!(tss.iomap_base as u64, TSS_SIZE);
    assert_eq!(tss.privilege_stack_table.len(), 3);
    assert_eq!(tss.interrupt_stack_table.len(), 7);
    let (low, high) = tss_segment(0x12345678);
    assert_eq!(low, 0x1200893456780067);
    assert_eq!(high, 0);
    let (_, high2) = tss_segment(0xFFFF_0000_1234_5678);
    assert_eq!(high2, 0xFFFF_0000);
}

#[test]
fn mmap_type_classification() {
    assert_eq!(MmapType::from(1), MmapType::Available);
    assert_eq!(MmapType::from(2), MmapType::Reserved);
    assert_eq!(MmapType::from(7), MmapType::Other);
    let fb = MultibootFramebuffer {
        addr: 0xFD000000,
        pitch: 4096,
        width: 1024,
        height: 768,
        bpp: 32,
        typ: 1,
        reserved: 0,
    };
    assert_eq!(fb.width, 1024);
}
