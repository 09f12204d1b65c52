//! Page-table entries and tables, and the `Page` / `Frame` units of
//! virtual and physical memory.  One huge-page size is used throughout.

use vstd::prelude::*;
use vstd::arithmetic::power::pow;
use vstd::arithmetic::power2::{is_pow2, is_pow2_equiv, lemma2_to64, pow2};
use crate::addressing::{spec_phys_valid, PhysAddr, VirtAddr};
use crate::align::{spec_align_down, spec_is_aligned};

verus! {

/// Size in bytes of one huge page, and of one physical frame.
pub const PAGE_SIZE: u64 = 0x200000;

/// Specifies whether the mapped frame or page table is loaded in memory.
pub const PRESENT: u64 = 1;

/// Controls whether writes to the mapped frames are allowed.
pub const WRITABLE: u64 = 2;

/// Controls whether accesses from userspace (ring 3) are permitted.
pub const USER_ACCESSIBLE: u64 = 4;

/// If set, a write-through policy is used for the cache.
pub const WRITE_THROUGH: u64 = 8;

/// Disables caching for the pointed entry.
pub const NO_CACHE: u64 = 16;

/// Set by the CPU when the mapped frame or page table is accessed.
pub const ACCESSED: u64 = 32;

/// Set by the CPU on a write to the mapped frame.
pub const DIRTY: u64 = 64;

/// Specifies that the entry maps a huge frame instead of a page table.
pub const HUGE_PAGE: u64 = 128;

/// Indicates that the mapping is present in all address spaces.
pub const GLOBAL: u64 = 256;

/// The number of entries in a page table.
pub const ENTRY_COUNT: usize = 512;

/// The page size is a power of two.
pub proof fn lemma_page_size_is_pow2()
    ensures
        is_pow2(PAGE_SIZE as int),
{
    lemma2_to64();
    assert(pow(2, 21nat) == 0x200000) by {
        assert(pow2(21) == 0x200000);
        vstd::arithmetic::power::lemma_pow_positive(2, 21);
    }
    assert(vstd::arithmetic::power2::is_pow2_exists(PAGE_SIZE as int));
    is_pow2_equiv(PAGE_SIZE as int);
}

/// Physical-address part of a raw page-table entry.
pub open spec fn spec_entry_addr(e: u64) -> u64 {
    e & 0x000f_ffff_ffff_f000
}

/// Flags part (low 12 bits) of a raw page-table entry.
pub open spec fn spec_entry_flags(e: u64) -> u64 {
    e & 0xfff
}

/// Whether a raw page-table entry has the present bit set.
pub open spec fn spec_entry_present(e: u64) -> bool {
    e & 1 == 1
}

/// A 64-bit page table entry: either entirely unused (zero) or a
/// frame-aligned physical address together with its flag bits.
#[derive(Clone, Copy, PartialEq, Eq, Structural, Debug)]
pub struct PageTableEntry {
    entry: u64,
}

impl View for PageTableEntry {
    type V = u64;

    closed spec fn view(&self) -> u64 {
        self.entry
    }
}

impl PageTableEntry {
    /// Creates an unused page table entry.
    #[inline]
    pub fn new() -> (r: Self)
        ensures
            r@ == 0,
    {
        PageTableEntry { entry: 0 }
    }

    /// Returns the flags of this entry.
    #[inline]
    pub fn flags(&self) -> (r: u64)
        ensures
            r == spec_entry_flags(self@),
    {
        self.entry & 0xfff
    }

    /// Returns whether this entry is zero.
    #[inline]
    pub fn is_unused(&self) -> (r: bool)
        ensures
            r == (self@ == 0),
    {
        self.entry == 0
    }

    /// Sets this entry to zero.
    #[inline]
    pub fn set_unused(&mut self)
        ensures
            final(self)@ == 0,
    {
        self.entry = 0;
    }

    /// Returns the physical address mapped by this entry, might be zero.
    #[inline]
    pub fn addr(&self) -> (r: PhysAddr)
        ensures
            r@ == spec_entry_addr(self@),
    {
        proof {
            let e = self@;
            assert(e & 0x000f_ffff_ffff_f000 < 0x0010000000000000) by (bit_vector);
        }
        PhysAddr::new(self.entry & 0x000f_ffff_ffff_f000)
    }

    /// Map the entry to the specified physical address with the
    /// specified flags.
    #[inline]
    pub fn set_addr(&mut self, addr: u64, flags: u64)
        ensures
            final(self)@ == addr | flags,
    {
        self.entry = addr | flags;
    }

    /// Sets the flags of this entry, keeping its address.
    #[inline]
    pub fn set_flags(&mut self, flags: u64)
        ensures
            final(self)@ == spec_entry_addr(old(self)@) | flags,
    {
        self.entry = (self.entry & 0x000f_ffff_ffff_f000) | flags;
    }

    /// Checks if the entry is present.
    #[inline]
    pub fn is_present(&self) -> (r: bool)
        ensures
            r == spec_entry_present(self@),
    {
        proof {
            let e = self@;
            assert(((e & 0xfff) & 1 != 0) == (e & 1 == 1)) by (bit_vector);
        }
        self.flags() & PRESENT != 0
    }
}

/// A well-formed entry built from a huge-page-aligned physical address
/// and low flag bits splits back into exactly those two parts.
pub proof fn lemma_entry_roundtrip(addr: u64, flags: u64)
    requires
        addr % 0x200000 == 0,
        addr < 0x0010000000000000,
        flags < 0x1000,
    ensures
        spec_entry_addr(addr | flags) == addr,
        spec_entry_flags(addr | flags) == flags,
        spec_entry_present(addr | flags) == (flags & 1 == 1),
        flags & 1 == 1 ==> (addr | flags) != 0,
{
    assert((addr | flags) & 0x000f_ffff_ffff_f000 == addr
        && (addr | flags) & 0xfff == flags
        && ((addr | flags) & 1 == 1) == (flags & 1 == 1)
        && (flags & 1 == 1 ==> (addr | flags) != 0)) by (bit_vector)
        requires
            addr % 0x200000 == 0,
            addr < 0x0010000000000000,
            flags < 0x1000,
    ;
}

/// A present entry is never the zero entry.
pub proof fn lemma_present_nonzero(e: u64)
    by (bit_vector)
    requires
        e & 1 == 1,
    ensures
        e != 0,
{
}

/// The combination of flags the allocators store in a leaf entry has
/// the present bit set and stays below the flag field width.
pub proof fn lemma_leaf_flags()
    ensures
        PRESENT | WRITABLE | HUGE_PAGE == 131,
        PRESENT | WRITABLE | HUGE_PAGE | USER_ACCESSIBLE == 135,
        131u64 & 1 == 1,
        135u64 & 1 == 1,
{
    assert(1u64 | 2 | 128 == 131 && 1u64 | 2 | 128 | 4 == 135 && 131u64 & 1 == 1
        && 135u64 & 1 == 1) by (bit_vector);
}

/// Represents one page table: a fixed run of 512 entries.
#[derive(Clone, PartialEq, Eq, Debug)]
pub struct PageTable {
    /// The entries of this table, in index order.
    pub entries: Vec<PageTableEntry>,
}

impl View for PageTable {
    type V = Seq<u64>;

    /// A table is viewed as the sequence of its raw 64-bit entries.
    open spec fn view(&self) -> Seq<u64> {
        self.entries@.map_values(|e: PageTableEntry| e@)
    }
}

impl PageTable {
    /// A table always holds exactly `ENTRY_COUNT` entries.
    pub open spec fn wf(&self) -> bool {
        self@.len() == ENTRY_COUNT
    }

    /// Creates an empty page table.
    pub fn new() -> (r: Self)
        ensures
            r.wf(),
            forall|i: int| 0 <= i < 512 ==> r@[i] == 0,
    {
        let mut entries: Vec<PageTableEntry> = Vec::new();
        let mut i: usize = 0;
        while i < 512
            invariant
                i == entries.len(),
                i <= 512,
                forall|k: int| 0 <= k < i ==> entries@[k]@ == 0,
            decreases 512 - i,
        {
            entries.push(PageTableEntry::new());
            i += 1;
        }
        PageTable { entries }
    }

    /// Number of present entries is not tracked; expose the raw entry
    /// at an index for diagnostics.
    #[inline]
    pub fn entry_at(&self, index: usize) -> (r: PageTableEntry)
        requires
            self.wf(),
            index < 512,
        ensures
            r@ == self@[index as int],
    {
        self.entries[index]
    }
}

/// A virtual memory page.
#[derive(Clone, Copy, PartialEq, Eq, Structural, Debug)]
pub struct Page {
    pub start_address: VirtAddr,
}

impl Page {
    /// Returns the page that starts at the given virtual address, or
    /// nothing if the address is not aligned to the page size.
    #[inline]
    pub fn from_start_address(address: VirtAddr) -> (r: Option<Self>)
        ensures
            match r {
                Some(p) => spec_is_aligned(address@ as int, PAGE_SIZE as int)
                    && p.start_address == address,
                None => !spec_is_aligned(address@ as int, PAGE_SIZE as int),
            },
    {
        proof {
            lemma_page_size_is_pow2();
        }
        if !address.is_aligned(PAGE_SIZE) {
            return None;
        }
        Some(Page { start_address: address })
    }

    /// Returns the page that contains the given virtual address.
    #[inline]
    pub fn containing_address(address: VirtAddr) -> (r: Self)
        ensures
            r.start_address@ == spec_align_down(address@ as int, PAGE_SIZE as int),
    {
        proof {
            lemma_page_size_is_pow2();
        }
        Page { start_address: address.align_down(PAGE_SIZE) }
    }
}

/// A physical memory frame.
#[derive(Clone, Copy, PartialEq, Eq, Structural, Debug)]
pub struct Frame {
    pub start_address: PhysAddr,
}

impl Frame {
    /// Returns the frame that starts at the given physical address, or
    /// nothing if the address is not aligned to the frame size.
    #[inline]
    pub fn from_start_address(address: PhysAddr) -> (r: Option<Self>)
        ensures
            match r {
                Some(f) => spec_is_aligned(address@ as int, PAGE_SIZE as int)
                    && f.start_address == address,
                None => !spec_is_aligned(address@ as int, PAGE_SIZE as int),
            },
    {
        proof {
            lemma_page_size_is_pow2();
        }
        if !address.is_aligned(PAGE_SIZE) {
            return None;
        }
        Some(Frame { start_address: address })
    }

    /// Returns the frame that contains the given physical address.
    #[inline]
    pub fn containing_address(address: PhysAddr) -> (r: Self)
        ensures
            r.start_address@ == spec_align_down(address@ as int, PAGE_SIZE as int),
    {
        proof {
            lemma_page_size_is_pow2();
        }
        Frame { start_address: address.align_down(PAGE_SIZE) }
    }
}

} // verus!
