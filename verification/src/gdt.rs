//! The task-state segment and the packing of its global-descriptor-
//! table entry.  Loading the tables is a hardware step done by boot
//! code.

use vstd::prelude::*;

verus! {

/// Size in bytes of the packed task-state segment.
pub const TSS_SIZE: u64 = 104;

/// The 64-bit task-state segment: stack pointers for privilege-level
/// changes and for the interrupt stack table, and the I/O-permission
/// bitmap offset.
pub struct TaskStateSegment {
    pub reserved_1: u32,
    /// Stack pointers for privilege levels 0 to 2.
    pub privilege_stack_table: Vec<u64>,
    pub reserved_2: u64,
    /// The interrupt stack table pointers.
    pub interrupt_stack_table: Vec<u64>,
    pub reserved_3: u64,
    pub reserved_4: u16,
    /// Offset of the I/O permission bit map from the TSS base.
    pub iomap_base: u16,
}

impl TaskStateSegment {
    /// The two tables have their architectural lengths.
    pub open spec fn wf(&self) -> bool {
        self.privilege_stack_table@.len() == 3 && self.interrupt_stack_table@.len() == 7
    }

    /// Creates a TSS with zeroed stack tables and an empty
    /// I/O-permission bitmap (the offset points past the segment).
    pub fn new() -> (r: TaskStateSegment)
        ensures
            r.wf(),
            r.iomap_base == TSS_SIZE,
            forall|i: int| 0 <= i < 3 ==> r.privilege_stack_table@[i] == 0,
            forall|i: int| 0 <= i < 7 ==> r.interrupt_stack_table@[i] == 0,
    {
        let mut privilege_stack_table: Vec<u64> = Vec::new();
        let mut i: usize = 0;
        while i < 3
            invariant
                i == privilege_stack_table.len(),
                i <= 3,
                forall|k: int| 0 <= k < i ==> privilege_stack_table@[k] == 0,
            decreases 3 - i,
        {
            privilege_stack_table.push(0);
            i += 1;
        }
        let mut interrupt_stack_table: Vec<u64> = Vec::new();
        let mut j: usize = 0;
        while j < 7
            invariant
                j == interrupt_stack_table.len(),
                j <= 7,
                forall|k: int| 0 <= k < j ==> interrupt_stack_table@[k] == 0,
            decreases 7 - j,
        {
            interrupt_stack_table.push(0);
            j += 1;
        }
        TaskStateSegment {
            privilege_stack_table,
            interrupt_stack_table,
            iomap_base: TSS_SIZE as u16,
            reserved_1: 0,
            reserved_2: 0,
            reserved_3: 0,
            reserved_4: 0,
        }
    }
}

/// Packs the descriptor-table entry that points at a TSS placed at the
/// given base address: the low word carries the limit, the base's low
/// three bytes and byte four, and the access byte for a present 64-bit
/// available TSS; the high word carries the base's upper half.
pub fn tss_segment(base: u64) -> (r: (u64, u64))
    ensures
        r.0 == (((103u64 & 0xFFFF) | ((base & 0xFFFFFF) << 16) | ((base & 0xFF000000) << 32))
            | (0x89u64 << 40)),
        r.1 == base >> 32,
{
    let access_byte: u64 = 0x89;  // present + 64-bit TSS available
    let mut low: u64 = 0;
    low |= (TSS_SIZE - 1) & 0xFFFF;
    low |= (base & 0xFFFFFF) << 16;
    low |= (base & 0xFF000000) << 32;
    low |= access_byte << 40;
    let high = base >> 32;
    proof {
        let b = base;
        assert((((0u64 | (103u64 & 0xFFFF)) | ((b & 0xFFFFFF) << 16)) | ((b & 0xFF000000) << 32))
            | (0x89u64 << 40) == (((103u64 & 0xFFFF) | ((b & 0xFFFFFF) << 16)) | ((b
            & 0xFF000000) << 32)) | (0x89u64 << 40)) by (bit_vector);
    }
    (low, high)
}

} // verus!
