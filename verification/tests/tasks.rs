//! The task registry: bootstrap, spawn, exit, and the round trip that
//! restores the parent exactly where its spawn left off.

use kernel_core::addressing::KERNEL_BASE;
use kernel_core::frame_alloc::PageFrameAllocator;
use kernel_core::multiboot::MmapEntry;
use kernel_core::paging::{PageTable, PAGE_SIZE};
use kernel_core::task::{Multiprocessing, Registers, TaskState};

fn frames_of(count: u64) -> PageFrameAllocator {
    let map = vec![MmapEntry { size: 20, addr: 0x200000, len: count * PAGE_SIZE, typ: 1 }];
    PageFrameAllocator::initialize(map).unwrap()
}

#[test]
fn bootstrap_starts_task_zero_at_base() {
    let mut fa = frames_of(32);
    let kernel_pml4 = PageTable::new();
    let mut mp = Multiprocessing::new();
    let act = mp.init(&mut fa, &kernel_pml4, KERNEL_BASE, 7).unwrap();
    assert_eq!(mp.tasks.len(), 1);
    assert_eq!(mp.current_id, 0);
    assert_eq!(mp.tasks[0].id, 0);
    assert_eq!(mp.tasks[0].state, TaskState::Running);
    assert_eq!(mp.tasks[0].open_fd.len(), 1);
    assert_eq!(mp.tasks[0].open_fd[0], (7, 0));
    // the program is loaded at virtual address zero of the new space
    assert_eq!(act.regs.rip, 0);
    // the stack pointer sits eight guard bytes below the stack page top
    assert_eq!(act.regs.rsp, 5 * PAGE_SIZE + PAGE_SIZE - 8);
    assert_eq!(act.regs.rbp, act.regs.rsp);
    assert_eq!(act.cr3, mp.tasks[0].page_allocator.root_table());
}

#[test]
fn bootstrap_fails_without_enough_frames() {
    // nine frames are needed; a map with eight tracked frames leaves
    // only six free
    let mut fa = frames_of(8);
    let kernel_pml4 = PageTable::new();
    let mut mp = Multiprocessing::new();
    assert!(mp.init(&mut fa, &kernel_pml4, KERNEL_BASE, 7).is_err());
    assert_eq!(mp.tasks.len(), 0);
    assert_eq!(fa.free_frames(), 6);
}

#[test]
fn spawn_exit_round_trip() {
    // spawning a child that immediately exits leaves the registry as
    // it was after bootstrap, resumes the parent with exactly the
    // captured register triple, and returns every frame the child took
    let mut fa = frames_of(64);
    let kernel_pml4 = PageTable::new();
    let mut mp = Multiprocessing::new();
    mp.init(&mut fa, &kernel_pml4, KERNEL_BASE, 7).unwrap();
    let free_before = fa.free_frames();
    let count_before = mp.tasks.len();
    let id_before = mp.current_id;

    let saved = Registers { rsp: 0x1111, rbp: 0x2222, rip: 0x3333 };
    let spawn = mp.execute(saved, &mut fa, &kernel_pml4, KERNEL_BASE, 7).unwrap();
    assert_eq!(mp.tasks.len(), 2);
    assert_eq!(mp.current_id, 1);
    assert_eq!(mp.tasks[0].state, TaskState::Suspended);
    assert_eq!(mp.tasks[1].state, TaskState::Running);
    assert_eq!(mp.tasks[1].id, 1);
    // the child's program region is the second reserved slice
    assert_eq!(spawn.regs.rip, 1 << 30);
    assert_eq!(spawn.regs.rsp, (1 << 30) + 5 * PAGE_SIZE + PAGE_SIZE - 8);
    // the parent's captured triple is kept intact while it waits
    assert_eq!(mp.tasks[0].registers, saved);

    let resume = mp.exit(&mut fa).unwrap();
    assert_eq!(mp.tasks.len(), count_before);
    assert_eq!(mp.current_id, id_before);
    assert_eq!(mp.tasks[0].state, TaskState::Running);
    // the restored triple is exactly the one captured at the spawn
    assert_eq!(resume.regs, saved);
    assert_eq!(resume.cr3, mp.tasks[0].page_allocator.root_table());
    // all child-owned pages and tables went back to the allocator
    assert_eq!(fa.free_frames(), free_before);
}

#[test]
fn nested_spawns_use_distinct_slices() {
    let mut fa = frames_of(64);
    let kernel_pml4 = PageTable::new();
    let mut mp = Multiprocessing::new();
    mp.init(&mut fa, &kernel_pml4, KERNEL_BASE, 7).unwrap();
    let saved = Registers { rsp: 1, rbp: 2, rip: 3 };
    mp.execute(saved, &mut fa, &kernel_pml4, KERNEL_BASE, 7).unwrap();
    let deeper = Registers { rsp: 4, rbp: 5, rip: 6 };
    mp.execute(deeper, &mut fa, &kernel_pml4, KERNEL_BASE, 7).unwrap();
    assert_eq!(mp.tasks.len(), 3);
    let a = mp.tasks[0].page_allocator.reserved_indexes();
    let b = mp.tasks[1].page_allocator.reserved_indexes();
    let c = mp.tasks[2].page_allocator.reserved_indexes();
    assert_ne!(a, b);
    assert_ne!(b, c);
    assert_ne!(a, c);
    // unwinding restores each captured triple in turn
    assert_eq!(mp.exit(&mut fa).unwrap().regs, deeper);
    assert_eq!(mp.exit(&mut fa).unwrap().regs, saved);
    assert_eq!(mp.tasks.len(), 1);
}

#[test]
fn bootstrap_task_cannot_exit() {
    let mut fa = frames_of(32);
    let kernel_pml4 = PageTable::new();
    let mut mp = Multiprocessing::new();
    mp.init(&mut fa, &kernel_pml4, KERNEL_BASE, 7).unwrap();
    assert!(mp.exit(&mut fa).is_err());
    assert_eq!(mp.tasks.len(), 1);
}

#[test]
fn spawn_failure_leaves_registry_intact() {
    // enough for the bootstrap task alone
    let mut fa = frames_of(12);
    let kernel_pml4 = PageTable::new();
    let mut mp = Multiprocessing::new();
    mp.init(&mut fa, &kernel_pml4, KERNEL_BASE, 7).unwrap();
    let free_before = fa.free_frames();
    let saved = Registers { rsp: 9, rbp: 9, rip: 9 };
    assert!(mp.execute(saved, &mut fa, &kernel_pml4, KERNEL_BASE, 7).is_err());
    assert_eq!(mp.tasks.len(), 1);
    assert_eq!(mp.current_id, 0);
    assert_eq!(mp.tasks[0].state, TaskState::Running);
    assert_eq!(fa.free_frames(), free_before);
}
