//! Interrupt-descriptor-table entries and their option bits, as pure
//! data: loading the table and installing handler code addresses are
//! hardware steps performed by boot code.

use vstd::prelude::*;
use crate::addressing::VirtAddr;

verus! {

/// The interrupt stack frame pushed by the CPU on interrupt entry.
#[derive(Clone, Copy, PartialEq, Eq, Structural, Debug)]
pub struct InterruptStackFrame {
    /// Instruction to resume at when the handler returns.
    pub instruction_pointer: u64,
    /// The code segment selector, padded with zeros.
    pub code_segment: u64,
    /// The flags register before the handler was invoked.
    pub cpu_flags: u64,
    /// The stack pointer at the time of the interrupt.
    pub stack_pointer: u64,
    /// The stack segment descriptor at the time of the interrupt.
    pub stack_segment: u64,
}

/// The option bits of an IDT entry: present bit, privilege level,
/// descriptor kind and interrupt-stack-table slot.
#[derive(Clone, Copy, PartialEq, Eq, Structural, Debug)]
pub struct EntryOptions(u16);

impl View for EntryOptions {
    type V = u16;

    closed spec fn view(&self) -> u16 {
        self.0
    }
}

impl EntryOptions {
    /// A minimal options field marking the entry as an interrupt
    /// handler descriptor.
    fn minimal() -> (r: Self)
        ensures
            r@ == 0xE00,
    {
        EntryOptions(0xE00)
    }

    /// The raw option bits.
    pub fn raw(&self) -> (r: u16)
        ensures
            r == self@,
    {
        self.0
    }

    /// Sets or resets the present bit.
    pub fn set_present(&mut self, present: bool)
        ensures
            final(self)@ == if present {
                old(self)@ | 0x8000
            } else {
                old(self)@ & !0x8000
            },
    {
        if present {
            self.0 |= 1u16 << 15;
            proof {
                let v = old(self)@;
                assert(v | (1u16 << 15) == v | 0x8000) by (bit_vector);
            }
        } else {
            self.0 &= !(1u16 << 15);
            proof {
                let v = old(self)@;
                assert(v & !(1u16 << 15) == v & !0x8000) by (bit_vector);
            }
        }
    }

    /// Sets the privilege level (DPL) required for invoking the
    /// handler.
    pub fn set_privilege_level(&mut self, dpl: u16)
        ensures
            final(self)@ == (old(self)@ & !(3u16 << 13)) | ((dpl & 3) << 13),
    {
        self.0 &= !(3u16 << 13);
        self.0 |= (dpl & 3) << 13;
    }

    /// Lets the CPU disable hardware interrupts when the handler is
    /// invoked.
    pub fn disable_interrupts(&mut self, disable: bool)
        ensures
            final(self)@ == if disable {
                old(self)@ & !(1u16 << 8)
            } else {
                old(self)@ | (1u16 << 8)
            },
    {
        if disable {
            self.0 &= !(1u16 << 8);
        } else {
            self.0 |= 1u16 << 8;
        }
    }

    /// Selects a slot of the interrupt stack table, or zero for none.
    #[allow(non_snake_case)]
    pub fn set_IST(&mut self, ist: u16)
        ensures
            final(self)@ == (old(self)@ & !7) | (ist & 7),
    {
        self.0 &= !7;
        self.0 |= ist & 7;
    }
}

/// One interrupt-descriptor-table entry: a handler address split into
/// three parts, a code-segment selector and the option bits.
#[derive(Clone, Copy, PartialEq, Eq, Structural, Debug)]
pub struct Entry {
    pointer_low: u16,
    gdt_selector: u16,
    pub options: EntryOptions,
    pointer_middle: u16,
    pointer_high: u32,
    reserved: u32,
}

impl Entry {
    /// The option bits of this entry.
    pub closed spec fn spec_options(&self) -> u16 {
        self.options@
    }

    /// The handler address this entry holds, reassembled.
    pub closed spec fn spec_handler_addr(&self) -> int {
        self.pointer_low as int + self.pointer_middle as int * 0x10000 + self.pointer_high as int
            * 0x100000000
    }

    /// Creates a non-present IDT entry (but sets the must-be-one
    /// bits).
    pub fn missing() -> (r: Self)
        ensures
            r.spec_handler_addr() == 0,
            r.spec_options() == 0xE00,
    {
        Entry {
            gdt_selector: 0,
            pointer_low: 0,
            pointer_middle: 0,
            pointer_high: 0,
            options: EntryOptions::minimal(),
            reserved: 0,
        }
    }

    /// Returns the virtual address of this entry's handler function,
    /// which must be canonical.
    pub fn handler_addr(&self) -> (r: VirtAddr)
        requires
            self.spec_handler_addr() / 0x800000000000 == 0 || self.spec_handler_addr()
                / 0x800000000000 == 0x1ffff,
        ensures
            r@ == self.spec_handler_addr(),
    {
        let addr: u64 = self.pointer_low as u64 + (self.pointer_middle as u64) * 0x10000 + (
        self.pointer_high as u64) * 0x100000000;
        VirtAddr::new(addr)
    }
}

/// A pointer to a descriptor table in the format the table-load
/// instructions take.
#[derive(Clone, Copy, PartialEq, Eq, Structural, Debug)]
pub struct DescriptorTablePointer {
    /// Size of the table in bytes, minus one.
    pub limit: u16,
    /// Physical address of the table.
    pub base: u64,
}

/// An entry as `Entry::missing` builds it: no handler address and only
/// the minimal, non-present option bits.
pub open spec fn spec_entry_missing(e: Entry) -> bool {
    e.spec_handler_addr() == 0 && e.spec_options() == 0xE00
}

/// The interrupt descriptor table: one entry per CPU exception and a
/// run of entries for external interrupts.
pub struct InterruptDescriptorTable {
    pub divide_error: Entry,
    pub debug: Entry,
    pub non_maskable_interrupt: Entry,
    pub breakpoint: Entry,
    pub overflow: Entry,
    pub bound_range_exceeded: Entry,
    pub invalid_opcode: Entry,
    pub device_not_available: Entry,
    pub double_fault: Entry,
    pub coprocessor_segment_overrun: Entry,
    pub invalid_tss: Entry,
    pub segment_not_present: Entry,
    pub stack_segment_fault: Entry,
    pub general_protection_fault: Entry,
    pub page_fault: Entry,
    pub x87_floating_point: Entry,
    pub alignment_check: Entry,
    pub machine_check: Entry,
    pub simd_floating_point: Entry,
    pub virtualization: Entry,
    pub cp_protection_exception: Entry,
    pub hv_injection_exception: Entry,
    pub vmm_communication_exception: Entry,
    pub security_exception: Entry,
    pub interrupts: Vec<Entry>,
}

impl InterruptDescriptorTable {
    /// Creates a new IDT filled with non-present entries.
    pub fn new() -> (r: InterruptDescriptorTable)
        ensures
            r.interrupts@.len() == 224,
            forall|i: int| 0 <= i < 224 ==> spec_entry_missing(#[trigger] r.interrupts@[i]),
            spec_entry_missing(r.divide_error),
            spec_entry_missing(r.debug),
            spec_entry_missing(r.non_maskable_interrupt),
            spec_entry_missing(r.breakpoint),
            spec_entry_missing(r.overflow),
            spec_entry_missing(r.bound_range_exceeded),
            spec_entry_missing(r.invalid_opcode),
            spec_entry_missing(r.device_not_available),
            spec_entry_missing(r.double_fault),
            spec_entry_missing(r.coprocessor_segment_overrun),
            spec_entry_missing(r.invalid_tss),
            spec_entry_missing(r.segment_not_present),
            spec_entry_missing(r.stack_segment_fault),
            spec_entry_missing(r.general_protection_fault),
            spec_entry_missing(r.page_fault),
            spec_entry_missing(r.x87_floating_point),
            spec_entry_missing(r.alignment_check),
            spec_entry_missing(r.machine_check),
            spec_entry_missing(r.simd_floating_point),
            spec_entry_missing(r.virtualization),
            spec_entry_missing(r.cp_protection_exception),
            spec_entry_missing(r.hv_injection_exception),
            spec_entry_missing(r.vmm_communication_exception),
            spec_entry_missing(r.security_exception),
    {
        let mut interrupts: Vec<Entry> = Vec::new();
        let mut i: usize = 0;
        while i < 224
            invariant
                i == interrupts.len(),
                i <= 224,
                forall|k: int| 0 <= k < i ==> spec_entry_missing(#[trigger] interrupts@[k]),
            decreases 224 - i,
        {
            interrupts.push(Entry::missing());
            i += 1;
        }
        InterruptDescriptorTable {
            divide_error: Entry::missing(),
            debug: Entry::missing(),
            non_maskable_interrupt: Entry::missing(),
            breakpoint: Entry::missing(),
            overflow: Entry::missing(),
            bound_range_exceeded: Entry::missing(),
            invalid_opcode: Entry::missing(),
            device_not_available: Entry::missing(),
            double_fault: Entry::missing(),
            coprocessor_segment_overrun: Entry::missing(),
            invalid_tss: Entry::missing(),
            segment_not_present: Entry::missing(),
            stack_segment_fault: Entry::missing(),
            general_protection_fault: Entry::missing(),
            page_fault: Entry::missing(),
            x87_floating_point: Entry::missing(),
            alignment_check: Entry::missing(),
            machine_check: Entry::missing(),
            simd_floating_point: Entry::missing(),
            virtualization: Entry::missing(),
            cp_protection_exception: Entry::missing(),
            hv_injection_exception: Entry::missing(),
            vmm_communication_exception: Entry::missing(),
            security_exception: Entry::missing(),
            interrupts,
        }
    }
}

/// The interrupt vectors this kernel dispatches on.
#[derive(Clone, Copy, PartialEq, Eq, Structural, Debug)]
pub enum InterruptIndex {
    Timer,
    Syscall,
}

impl InterruptIndex {
    /// The raw vector number.
    pub fn as_u8(self) -> (r: u8)
        ensures
            r == match self {
                InterruptIndex::Timer => 32u8,
                InterruptIndex::Syscall => 0x80u8,
            },
    {
        match self {
            InterruptIndex::Timer => 32,
            InterruptIndex::Syscall => 0x80,
        }
    }

    /// The raw vector number, widened for indexing.
    pub fn as_usize(self) -> (r: usize)
        ensures
            r == match self {
                InterruptIndex::Timer => 32usize,
                InterruptIndex::Syscall => 0x80usize,
            },
    {
        self.as_u8() as usize
    }

    /// The vector's position in the external-interrupt run of the IDT.
    #[allow(non_snake_case)]
    pub fn IRQ_index(self) -> (r: usize)
        ensures
            r == match self {
                InterruptIndex::Timer => 0usize,
                InterruptIndex::Syscall => 0x60usize,
            },
    {
        self.as_usize() - 32
    }
}

} // verus!
