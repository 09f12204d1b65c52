//! Memory-management and process-scheduling core of a minimal kernel:
//! a bitmap physical-frame allocator, a page-table/address-space manager
//! built on bounds-checked tables, a bump-style heap allocator, and a
//! cooperative task registry with explicit context-switch records.

pub mod align;
pub mod addressing;
pub mod multiboot;
pub mod paging;
pub mod frame_alloc;
pub mod page_alloc;
pub mod mm;
pub mod task;
pub mod framebuffer;
pub mod chardev;
pub mod keyboard;
pub mod interrupts;
pub mod pic;
pub mod gdt;
