//! Data model of the firmware-provided boot information: the memory map
//! entries the frame allocator consumes, and the surrounding tables.

use vstd::prelude::*;

verus! {

/// Region type value that marks a memory-map entry as available RAM.
pub const MMAP_AVAILABLE: u32 = 1;

/// Region type value that marks a memory-map entry as reserved.
pub const MMAP_RESERVED: u32 = 2;

/// One region of the boot memory map.
#[derive(Clone, Copy, PartialEq, Eq, Structural, Debug)]
pub struct MmapEntry {
    /// Size of this entry structure itself, as the firmware reports it.
    pub size: u32,
    /// Physical address at which the region starts.
    pub addr: u64,
    /// Length of the region in bytes.
    pub len: u64,
    /// Region type; only `MMAP_AVAILABLE` regions back frames.
    pub typ: u32,
}

/// Classified region type of a memory-map entry.
#[derive(Clone, Copy, PartialEq, Eq, Structural, Debug)]
pub enum MmapType {
    Available,
    Reserved,
    Other,
}

impl From<u32> for MmapType {
    fn from(value: u32) -> (r: Self) {
        match value {
            1 => MmapType::Available,
            2 => MmapType::Reserved,
            _ => MmapType::Other,
        }
    }
}

impl vstd::std_specs::convert::FromSpecImpl<u32> for MmapType {
    open spec fn obeys_from_spec() -> bool {
        true
    }

    open spec fn from_spec(value: u32) -> Self {
        if value == 1 {
            MmapType::Available
        } else if value == 2 {
            MmapType::Reserved
        } else {
            MmapType::Other
        }
    }
}

/// ELF section header table reference from the boot information.
#[derive(Clone, Copy, PartialEq, Eq, Structural, Debug)]
#[allow(non_camel_case_types)]
pub struct ELF_Section_Header_Table {
    pub num: u32,
    pub size: u32,
    pub addr: u32,
    pub shndx: u32,
}

/// Framebuffer description from the boot information.
#[derive(Clone, Copy, PartialEq, Eq, Structural, Debug)]
pub struct MultibootFramebuffer {
    pub addr: u64,
    pub pitch: u32,
    pub width: u32,
    pub height: u32,
    pub bpp: u8,
    pub typ: u8,
    pub reserved: u8,
}

/// Boot information handed over by the loader.  The memory-map and
/// module fields are raw physical addresses; boot code reads the tables
/// they point at and hands the parsed entries to the frame allocator.
#[derive(Clone, Copy, PartialEq, Eq, Structural, Debug)]
pub struct MultibootInfo {
    pub flags: u32,
    pub mem_lower: u32,
    pub mem_upper: u32,
    pub boot_device: u32,
    pub cmdline: u32,
    pub mods_count: u32,
    pub mods_addr: u32,
    pub table: ELF_Section_Header_Table,
    pub mmap_length: u32,
    pub mmap_addr: u32,
    pub drives_length: u32,
    pub drives_addr: u32,
    pub config_table: u32,
    pub boot_loader_name: u32,
    pub apm_table: u32,
    pub vbe_control_info: u32,
    pub vbe_mode_info: u32,
    pub vbe_mode: u16,
    pub vbe_interface_seg: u16,
    pub vbe_interface_off: u16,
    pub vbe_interface_len: u16,
    pub framebuffer: MultibootFramebuffer,
}

} // verus!
