//! Task records and the cooperative multiprocessing registry.  Tasks
//! nest strictly: spawning suspends the parent and runs the child, and
//! the child's exit resumes the parent exactly where it left off.  The
//! register save/restore itself is expressed as explicit switch records
//! that the caller carries out.

use vstd::prelude::*;
use vstd::pervasive::unreached;
use crate::addressing::{spec_from_table_indexes, VirtAddr};
use crate::frame_alloc::{spec_count_set, spec_frame_addr, PageFrameAllocator};
use crate::page_alloc::{spec_among_owned, spec_first_run, spec_run_free, PageAllocator};
use crate::paging::{
    lemma_present_nonzero, spec_entry_addr, spec_entry_present, Page, PageTable, PAGE_SIZE,
};

verus! {

/// The minimal continuation of a suspended task: stack pointer, frame
/// pointer and instruction pointer.
#[derive(Clone, Copy, PartialEq, Eq, Structural, Debug)]
pub struct Registers {
    pub rsp: u64,
    pub rbp: u64,
    pub rip: u64,
}

impl Registers {
    /// An all-zero register record.
    pub fn new() -> (r: Self)
        ensures
            r.rsp == 0,
            r.rbp == 0,
            r.rip == 0,
    {
        Registers { rsp: 0, rbp: 0, rip: 0 }
    }
}

/// Whether a task currently runs or waits for a child to exit.
#[derive(Clone, Copy, PartialEq, Eq, Structural, Debug)]
pub enum TaskState {
    Running,
    Suspended,
}

/// One task: its id, its saved continuation, its address space, its
/// open file descriptors (an opaque node handle and a byte cursor
/// each), and whether it runs.
pub struct Task {
    pub id: u64,
    pub registers: Registers,
    pub page_allocator: PageAllocator,
    pub open_fd: Vec<(u64, u64)>,
    pub state: TaskState,
}

/// A context switch for the caller to carry out: load the paging base
/// register with `cr3` and the stack, frame and instruction pointers
/// with `regs`.
#[derive(Clone, Copy, PartialEq, Eq, Structural, Debug)]
pub struct SwitchAction {
    pub cr3: u64,
    pub regs: Registers,
}

/// Why a task could not be spawned.
#[derive(Clone, Copy, PartialEq, Eq, Structural, Debug)]
pub enum SpawnError {
    /// Too few free frames to build the task's address space.
    OutOfMemory,
}

/// Why the current task could not exit.
#[derive(Clone, Copy, PartialEq, Eq, Structural, Debug)]
pub enum ExitError {
    /// The bootstrap task has no parent to resume.
    NoParent,
}

/// Reserved top-level index of the user address space of a task id.
pub open spec fn spec_user_slot_p4(id: u64) -> int {
    id as int / 512
}

/// Reserved second-level index of the user address space of a task id.
pub open spec fn spec_user_slot_p3(id: u64) -> int {
    id as int % 512
}

/// First virtual address of a task's reserved region; its program is
/// loaded here.
pub open spec fn spec_task_base(id: u64) -> int {
    spec_from_table_indexes(spec_user_slot_p4(id), spec_user_slot_p3(id), 0)
}

/// Initial stack pointer of a task: eight guard bytes below the top of
/// its stack page.
pub open spec fn spec_task_stack_top(id: u64) -> int {
    spec_from_table_indexes(spec_user_slot_p4(id), spec_user_slot_p3(id), 5) + PAGE_SIZE - 8
}

/// The running parent as it is recorded when it spawns a child.
pub open spec fn spec_suspend(t: Task, saved: Registers) -> Task {
    Task { registers: saved, state: TaskState::Suspended, ..t }
}

/// A suspended parent as it is resumed when its child exits.
pub open spec fn spec_resume(t: Task) -> Task {
    Task { state: TaskState::Running, ..t }
}

/// The task list after a spawn: the parent is suspended with the
/// captured registers, and the child is appended.
pub open spec fn spec_after_execute(tasks: Seq<Task>, saved: Registers, child: Task) -> Seq<
    Task,
> {
    tasks.update(tasks.len() - 1, spec_suspend(tasks.last(), saved)).push(child)
}

/// The task list after an exit: the exiting tail task is removed and
/// its parent resumed.
pub open spec fn spec_after_exit(tasks: Seq<Task>) -> Seq<Task> {
    let rest = tasks.drop_last();
    rest.update(rest.len() - 1, spec_resume(rest.last()))
}

/// Whether the given address backs one of the first `n` fixed-offset
/// pages of a task's reserved region.
pub open spec fn spec_among_region_upto(leaf: Seq<u64>, n: int, addr: int) -> bool {
    exists|k: int| 0 <= k < n && leaf[k] != 0 && spec_entry_addr(leaf[k]) == addr
}

/// Whether the given address backs one of the six fixed-offset pages a
/// spawn allocates in a task's reserved region.
pub open spec fn spec_among_region(leaf: Seq<u64>, addr: int) -> bool {
    spec_among_region_upto(leaf, 6, addr)
}

/// Considering one more page splits membership into that page's
/// backing address and membership among the earlier pages.
proof fn lemma_among_region_step(leaf: Seq<u64>, n: int, a: int)
    requires
        0 <= n,
    ensures
        spec_among_region_upto(leaf, n + 1, a) == (spec_among_region_upto(leaf, n, a) || (leaf[n]
            != 0 && spec_entry_addr(leaf[n]) == a)),
{
    if spec_among_region_upto(leaf, n + 1, a) {
        let k = choose|k: int| 0 <= k < n + 1 && leaf[k] != 0 && spec_entry_addr(leaf[k]) == a;
        if k < n {
            assert(spec_among_region_upto(leaf, n, a));
        }
    }
    if spec_among_region_upto(leaf, n, a) {
        let k = choose|k: int| 0 <= k < n && leaf[k] != 0 && spec_entry_addr(leaf[k]) == a;
        assert(0 <= k < n + 1 && leaf[k] != 0 && spec_entry_addr(leaf[k]) == a);
        assert(spec_among_region_upto(leaf, n + 1, a));
    }
    if leaf[n] != 0 && spec_entry_addr(leaf[n]) == a {
        assert(spec_among_region_upto(leaf, n + 1, a));
    }
}

/// The frame state a spawn leaves behind for a task: its six region
/// pages are all mapped, the frames behind them and behind its three
/// owned tables are all still marked allocated, and no two of the nine
/// share an address.
pub open spec fn spec_spawn_frames_live(pa: PageAllocator, fa: &PageFrameAllocator) -> bool {
    &&& pa.owned().len() == 3
    &&& forall|k: int| 0 <= k < 6 ==> spec_entry_present(#[trigger] pa.leaf()[k])
    &&& forall|k: int|
        0 <= k < 6 ==> exists|idx: int|
            0 <= idx < fa.total() && spec_frame_addr(fa.mm(), idx) == spec_entry_addr(
                #[trigger] pa.leaf()[k],
            ) && fa.bits()[idx]
    &&& forall|t: int|
        0 <= t < 3 ==> exists|idx: int|
            0 <= idx < fa.total() && spec_frame_addr(fa.mm(), idx) == #[trigger] pa.owned()[
                t
            ].start_address@ && fa.bits()[idx]
    &&& forall|k1: int, k2: int|
        0 <= k1 < k2 < 6 ==> spec_entry_addr(#[trigger] pa.leaf()[k1]) != spec_entry_addr(
            #[trigger] pa.leaf()[k2],
        )
    &&& forall|t1: int, t2: int|
        0 <= t1 < t2 < 3 ==> #[trigger] pa.owned()[t1].start_address@ != #[trigger] pa.owned()[
            t2
        ].start_address@
    &&& forall|k: int, t: int|
        0 <= k < 6 && 0 <= t < 3 ==> spec_entry_addr(#[trigger] pa.leaf()[k])
            != #[trigger] pa.owned()[t].start_address@
}

/// Law: a spawn followed by the child's exit returns the task list to
/// its pre-spawn shape — same count, all other tasks untouched — and
/// the resumed parent carries exactly the register triple captured at
/// the spawn.
pub proof fn lemma_spawn_exit_round_trip(
    tasks0: Seq<Task>,
    saved: Registers,
    child: Task,
    tasks1: Seq<Task>,
    tasks2: Seq<Task>,
)
    requires
        tasks0.len() >= 1,
        tasks1 == spec_after_execute(tasks0, saved, child),
        tasks2 == spec_after_exit(tasks1),
    ensures
        tasks2.len() == tasks0.len(),
        tasks1[tasks1.len() - 2].registers == saved,
        tasks2[tasks0.len() - 1].registers == saved,
        tasks2[tasks0.len() - 1] == spec_resume(spec_suspend(tasks0.last(), saved)),
        forall|t: int| 0 <= t < tasks0.len() - 1 ==> tasks2[t] == tasks0[t],
{
    let n = tasks0.len() as int;
    assert(tasks1.len() == n + 1);
    assert(tasks1.drop_last() =~= tasks0.update(n - 1, spec_suspend(tasks0.last(), saved)));
    assert(tasks1[n - 1] == spec_suspend(tasks0.last(), saved));
    assert(tasks2 =~= tasks1.drop_last().update(
        n - 1,
        spec_resume(tasks1.drop_last().last()),
    ));
}

/// The process-wide task registry: the ordered list of live tasks —
/// conceptually a call stack, since tasks nest strictly — and the id of
/// the task that runs.
pub struct Multiprocessing {
    pub tasks: Vec<Task>,
    pub current_id: u64,
}

impl Multiprocessing {
    /// Registry consistency: the running task is the newest one, ids
    /// count up from zero, and every task owns a well-formed user
    /// address space on its own reserved index pair.
    pub open spec fn wf(&self) -> bool {
        &&& self.tasks@.len() <= 0x20000
        &&& (self.tasks@.len() == 0 ==> self.current_id == 0)
        &&& (self.tasks@.len() > 0 ==> self.current_id as int == self.tasks@.len() - 1)
        &&& forall|t: int|
            0 <= t < self.tasks@.len() ==> {
                let task = #[trigger] self.tasks@[t];
                &&& task.id == t
                &&& task.page_allocator.wf()
                &&& task.page_allocator.user()
                &&& task.page_allocator.p4() == spec_user_slot_p4(task.id)
                &&& task.page_allocator.p3() == spec_user_slot_p3(task.id)
                &&& task.state == if t == self.tasks@.len() - 1 {
                    TaskState::Running
                } else {
                    TaskState::Suspended
                }
            }
    }

    /// Creates an empty registry.
    pub fn new() -> (r: Self)
        ensures
            r.wf(),
            r.tasks@.len() == 0,
            r.current_id == 0,
    {
        Multiprocessing { tasks: Vec::new(), current_id: 0 }
    }
}

/// After a spawn's four allocation steps — tables, program page, heap
/// run, stack page — every backing frame is live and no two of the
/// nine coincide: each step drew only frames that were free at its
/// start, while all earlier frames were already marked allocated.
#[verifier::spinoff_prover]
proof fn lemma_spawn_frames_live_established(
    pa: PageAllocator,
    fr0: PageFrameAllocator,
    fr1: PageFrameAllocator,
    fr2: PageFrameAllocator,
    fr3: PageFrameAllocator,
    fr4: PageFrameAllocator,
    leaf1: Seq<u64>,
    leaf2: Seq<u64>,
    leaf3: Seq<u64>,
)
    requires
        fr4.wf(),
        fr1.mm() == fr0.mm(),
        fr2.mm() == fr0.mm(),
        fr3.mm() == fr0.mm(),
        fr4.mm() == fr0.mm(),
        fr1.total() == fr0.total(),
        fr2.total() == fr0.total(),
        fr3.total() == fr0.total(),
        fr4.total() == fr0.total(),
        pa.leaf() == leaf3,
        pa.owned().len() == 3,
        leaf1.len() == 512,
        leaf2.len() == 512,
        leaf3.len() == 512,
        leaf3[0] == leaf2[0],
        leaf2[0] == leaf1[0],
        forall|k: int| 1 <= k < 5 ==> #[trigger] leaf3[k] == leaf2[k],
        forall|k: int| 0 <= k < 6 ==> spec_entry_present(#[trigger] leaf3[k]),
        // the three table frames were free before and allocated after
        forall|t: int|
            0 <= t < 3 ==> exists|idx: int|
                0 <= idx < fr0.total() && !fr0.bits()[idx] && fr1.bits()[idx] && spec_frame_addr(
                    fr0.mm(),
                    idx,
                ) == #[trigger] pa.owned()[t].start_address@,
        forall|t1: int, t2: int|
            0 <= t1 < t2 < 3 ==> #[trigger] pa.owned()[t1].start_address@ != #[trigger] pa.owned()[
                t2
            ].start_address@,
        // the program page's frame
        exists|idx: int|
            0 <= idx < fr1.total() && !fr1.bits()[idx] && fr2.bits()[idx] && spec_frame_addr(
                fr1.mm(),
                idx,
            ) == spec_entry_addr(leaf1[0]),
        // the four heap pages' frames
        forall|k: int|
            1 <= k < 5 ==> exists|idx: int|
                0 <= idx < fr2.total() && !fr2.bits()[idx] && fr3.bits()[idx] && spec_frame_addr(
                    fr2.mm(),
                    idx,
                ) == spec_entry_addr(#[trigger] leaf2[k]),
        forall|k1: int, k2: int|
            1 <= k1 < k2 < 5 ==> spec_entry_addr(#[trigger] leaf2[k1]) != spec_entry_addr(
                #[trigger] leaf2[k2],
            ),
        // the stack page's frame
        exists|idx: int|
            0 <= idx < fr3.total() && !fr3.bits()[idx] && fr4.bits()[idx] && spec_frame_addr(
                fr3.mm(),
                idx,
            ) == spec_entry_addr(leaf3[5]),
        // each step only marks frames allocated, never free
        forall|idx: int|
            0 <= idx < fr1.total() && fr1.bits()[idx] ==> #[trigger] fr2.bits()[idx],
        forall|idx: int|
            0 <= idx < fr2.total() && fr2.bits()[idx] ==> #[trigger] fr3.bits()[idx],
        forall|idx: int|
            0 <= idx < fr3.total() && fr3.bits()[idx] ==> #[trigger] fr4.bits()[idx],
    ensures
        spec_spawn_frames_live(pa, &fr4),
{
    fr4.lemma_wf_views();
    let mm = fr0.mm();
    let jt0 = choose|idx: int|
        0 <= idx < fr0.total() && !fr0.bits()[idx] && fr1.bits()[idx] && spec_frame_addr(
            fr0.mm(),
            idx,
        ) == pa.owned()[0].start_address@;
    let jt1 = choose|idx: int|
        0 <= idx < fr0.total() && !fr0.bits()[idx] && fr1.bits()[idx] && spec_frame_addr(
            fr0.mm(),
            idx,
        ) == pa.owned()[1].start_address@;
    let jt2 = choose|idx: int|
        0 <= idx < fr0.total() && !fr0.bits()[idx] && fr1.bits()[idx] && spec_frame_addr(
            fr0.mm(),
            idx,
        ) == pa.owned()[2].start_address@;
    let j0 = choose|idx: int|
        0 <= idx < fr1.total() && !fr1.bits()[idx] && fr2.bits()[idx] && spec_frame_addr(
            fr1.mm(),
            idx,
        ) == spec_entry_addr(leaf1[0]);
    let j1 = choose|idx: int|
        0 <= idx < fr2.total() && !fr2.bits()[idx] && fr3.bits()[idx] && spec_frame_addr(
            fr2.mm(),
            idx,
        ) == spec_entry_addr(leaf2[1]);
    let j2 = choose|idx: int|
        0 <= idx < fr2.total() && !fr2.bits()[idx] && fr3.bits()[idx] && spec_frame_addr(
            fr2.mm(),
            idx,
        ) == spec_entry_addr(leaf2[2]);
    let j3 = choose|idx: int|
        0 <= idx < fr2.total() && !fr2.bits()[idx] && fr3.bits()[idx] && spec_frame_addr(
            fr2.mm(),
            idx,
        ) == spec_entry_addr(leaf2[3]);
    let j4 = choose|idx: int|
        0 <= idx < fr2.total() && !fr2.bits()[idx] && fr3.bits()[idx] && spec_frame_addr(
            fr2.mm(),
            idx,
        ) == spec_entry_addr(leaf2[4]);
    let j5 = choose|idx: int|
        0 <= idx < fr3.total() && !fr3.bits()[idx] && fr4.bits()[idx] && spec_frame_addr(
            fr3.mm(),
            idx,
        ) == spec_entry_addr(leaf3[5]);
    // the witnesses exist: each allocation's contract provides them
    assert(0 <= jt0 < fr0.total() && !fr0.bits()[jt0] && fr1.bits()[jt0] && spec_frame_addr(
        mm,
        jt0,
    ) == pa.owned()[0].start_address@);
    assert(0 <= jt1 < fr0.total() && !fr0.bits()[jt1] && fr1.bits()[jt1] && spec_frame_addr(
        mm,
        jt1,
    ) == pa.owned()[1].start_address@);
    assert(0 <= jt2 < fr0.total() && !fr0.bits()[jt2] && fr1.bits()[jt2] && spec_frame_addr(
        mm,
        jt2,
    ) == pa.owned()[2].start_address@);
    assert(0 <= j0 < fr0.total() && !fr1.bits()[j0] && fr2.bits()[j0] && spec_frame_addr(mm, j0)
        == spec_entry_addr(leaf3[0]));
    assert(0 <= j1 < fr0.total() && !fr2.bits()[j1] && fr3.bits()[j1] && spec_frame_addr(mm, j1)
        == spec_entry_addr(leaf3[1]));
    assert(0 <= j2 < fr0.total() && !fr2.bits()[j2] && fr3.bits()[j2] && spec_frame_addr(mm, j2)
        == spec_entry_addr(leaf3[2]));
    assert(0 <= j3 < fr0.total() && !fr2.bits()[j3] && fr3.bits()[j3] && spec_frame_addr(mm, j3)
        == spec_entry_addr(leaf3[3]));
    assert(0 <= j4 < fr0.total() && !fr2.bits()[j4] && fr3.bits()[j4] && spec_frame_addr(mm, j4)
        == spec_entry_addr(leaf3[4]));
    assert(0 <= j5 < fr0.total() && !fr3.bits()[j5] && fr4.bits()[j5] && spec_frame_addr(mm, j5)
        == spec_entry_addr(leaf3[5]));
    // earlier frames stay allocated through the later steps
    assert(fr2.bits()[jt0] && fr2.bits()[jt1] && fr2.bits()[jt2]);
    assert(fr3.bits()[jt0] && fr3.bits()[jt1] && fr3.bits()[jt2] && fr3.bits()[j0]);
    assert(fr4.bits()[jt0] && fr4.bits()[jt1] && fr4.bits()[jt2] && fr4.bits()[j0]
        && fr4.bits()[j1] && fr4.bits()[j2] && fr4.bits()[j3] && fr4.bits()[j4]
        && fr4.bits()[j5]);
    // all nine indices are pairwise distinct: at each step the fresh
    // ones were free while the earlier ones were already allocated
    assert(jt0 != j0 && jt1 != j0 && jt2 != j0);
    assert(jt0 != j1 && jt1 != j1 && jt2 != j1 && j0 != j1);
    assert(jt0 != j2 && jt1 != j2 && jt2 != j2 && j0 != j2);
    assert(jt0 != j3 && jt1 != j3 && jt2 != j3 && j0 != j3);
    assert(jt0 != j4 && jt1 != j4 && jt2 != j4 && j0 != j4);
    assert(jt0 != j5 && jt1 != j5 && jt2 != j5 && j0 != j5 && j1 != j5 && j2 != j5 && j3 != j5
        && j4 != j5);
    assert forall|k: int| 0 <= k < 6 implies exists|idx: int|
        0 <= idx < fr4.total() && spec_frame_addr(fr4.mm(), idx) == spec_entry_addr(
            #[trigger] pa.leaf()[k],
        ) && fr4.bits()[idx] by {
        let j = if k == 0 {
            j0
        } else if k == 1 {
            j1
        } else if k == 2 {
            j2
        } else if k == 3 {
            j3
        } else if k == 4 {
            j4
        } else {
            j5
        };
        assert(0 <= j < fr4.total() && spec_frame_addr(fr4.mm(), j) == spec_entry_addr(
            pa.leaf()[k],
        ) && fr4.bits()[j]);
    }
    assert forall|t: int| 0 <= t < 3 implies exists|idx: int|
        0 <= idx < fr4.total() && spec_frame_addr(fr4.mm(), idx) == #[trigger] pa.owned()[
            t
        ].start_address@ && fr4.bits()[idx] by {
        let j = if t == 0 {
            jt0
        } else if t == 1 {
            jt1
        } else {
            jt2
        };
        assert(0 <= j < fr4.total() && spec_frame_addr(fr4.mm(), j) == pa.owned()[
            t
        ].start_address@ && fr4.bits()[j]);
    }
    assert forall|k1: int, k2: int|
        0 <= k1 < k2 < 6 implies spec_entry_addr(#[trigger] pa.leaf()[k1]) != spec_entry_addr(
        #[trigger] pa.leaf()[k2],
    ) by {
        if 1 <= k1 && k2 <= 4 {
            assert(pa.leaf()[k1] == leaf2[k1] && pa.leaf()[k2] == leaf2[k2]);
        } else {
            let ja = if k1 == 0 {
                j0
            } else if k1 == 1 {
                j1
            } else if k1 == 2 {
                j2
            } else if k1 == 3 {
                j3
            } else {
                j4
            };
            let jb = if k2 == 1 {
                j1
            } else if k2 == 2 {
                j2
            } else if k2 == 3 {
                j3
            } else if k2 == 4 {
                j4
            } else {
                j5
            };
            assert(ja != jb);
            assert(spec_frame_addr(mm, ja) == spec_entry_addr(pa.leaf()[k1]));
            assert(spec_frame_addr(mm, jb) == spec_entry_addr(pa.leaf()[k2]));
            crate::frame_alloc::lemma_frame_exclusivity(mm, ja, jb);
        }
    }
    assert forall|k: int, t: int|
        0 <= k < 6 && 0 <= t < 3 implies spec_entry_addr(#[trigger] pa.leaf()[k])
        != #[trigger] pa.owned()[t].start_address@ by {
        let ja = if k == 0 {
            j0
        } else if k == 1 {
            j1
        } else if k == 2 {
            j2
        } else if k == 3 {
            j3
        } else if k == 4 {
            j4
        } else {
            j5
        };
        let jb = if t == 0 {
            jt0
        } else if t == 1 {
            jt1
        } else {
            jt2
        };
        assert(ja != jb);
        assert(spec_frame_addr(mm, ja) == spec_entry_addr(pa.leaf()[k]));
        assert(spec_frame_addr(mm, jb) == pa.owned()[t].start_address@);
        crate::frame_alloc::lemma_frame_exclusivity(mm, ja, jb);
    }
}

/// Builds the address space of a new task: a fresh user space on the
/// task id's reserved index pair, with one page of program memory at
/// the region base, four pages of process heap behind it, and one page
/// of stack.  Takes nine frames in all: three for tables, six for
/// pages.
fn build_user_space(
    id: u64,
    physical_memory_offset: u64,
    kernel_pml4: &PageTable,
    frames: &mut PageFrameAllocator,
) -> (r: (PageAllocator, Page, Page, Page))
    requires
        kernel_pml4.wf(),
        old(frames).wf(),
        id < 0x20000,
        spec_count_set(old(frames).bits()) + 9 <= old(frames).total(),
    ensures
        final(frames).wf(),
        final(frames).mm() == old(frames).mm(),
        final(frames).total() == old(frames).total(),
        spec_count_set(final(frames).bits()) == spec_count_set(old(frames).bits()) + 9,
        r.0.wf(),
        r.0.user(),
        r.0.p4() == spec_user_slot_p4(id),
        r.0.p3() == spec_user_slot_p3(id),
        r.0.backed_by(final(frames)),
        r.0.root() == r.0.owned()[0].start_address@,
        r.0.owned().len() == 3,
        r.1.start_address@ == spec_task_base(id),
        r.2.start_address@ == spec_from_table_indexes(
            spec_user_slot_p4(id),
            spec_user_slot_p3(id),
            1,
        ),
        r.3.start_address@ == spec_from_table_indexes(
            spec_user_slot_p4(id),
            spec_user_slot_p3(id),
            5,
        ),
        forall|k: int| 0 <= k < 6 ==> spec_entry_present(#[trigger] r.0.leaf()[k]),
        forall|k: int| 6 <= k < 512 ==> #[trigger] r.0.leaf()[k] == 0,
        spec_spawn_frames_live(r.0, final(frames)),
{
    proof {
        frames.lemma_wf_views();
        crate::frame_alloc::lemma_count_set_le(frames.bits());
    }
    let ghost fr0 = *frames;
    let p4 = (id / 512) as usize;
    let p3 = (id % 512) as usize;
    proof {
        vstd::arithmetic::div_mod::lemma_mod_bound(id as int, 512);
        vstd::arithmetic::div_mod::lemma_div_is_ordered(id as int, 0x1ffff, 512);
        assert(p4 < 256 && p3 < 512);
        assert(p4 as int == spec_user_slot_p4(id));
        assert(p3 as int == spec_user_slot_p3(id));
    }
    let ghost count0 = spec_count_set(frames.bits());
    let mut pa = match PageAllocator::new_user(physical_memory_offset, p4, p3, kernel_pml4, frames)
    {
        Ok(p) => p,
        Err(_) => {
            return unreached();
        },
    };
    let ghost fr1 = *frames;
    let ghost leaf0 = pa.leaf();
    proof {
        assert(spec_run_free(leaf0, 0, 1));
        assert(spec_first_run(leaf0, 1int, 0) == 0);
    }
    let program = match pa.alloc_next_page(frames, 1) {
        Some(p) => p,
        None => {
            return unreached();
        },
    };
    let ghost fr2 = *frames;
    let ghost leaf1 = pa.leaf();
    proof {
        pa.lemma_wf_bounds();
        lemma_present_nonzero(leaf1[0]);
        assert(!spec_run_free(leaf1, 0, 4));
        assert(spec_run_free(leaf1, 1, 4)) by {
            assert(forall|j: int| 1 <= j < 5 ==> leaf1[j] == leaf0[j]);
        }
        assert(spec_first_run(leaf1, 4int, 0) == spec_first_run(leaf1, 4int, 1));
        assert(spec_first_run(leaf1, 4int, 1) == 1);
    }
    let heap = match pa.alloc_next_page(frames, 4) {
        Some(p) => p,
        None => {
            return unreached();
        },
    };
    let ghost fr3 = *frames;
    let ghost leaf2 = pa.leaf();
    proof {
        pa.lemma_wf_bounds();
        assert forall|k: int| 0 <= k < 5 implies leaf2[k] != 0 by {
            if k == 0 {
                assert(leaf2[0] == leaf1[0]);
            } else {
                assert(spec_entry_present(leaf2[k]));
            }
            lemma_present_nonzero(leaf2[k]);
        }
        assert(leaf2[0] != 0 && leaf2[1] != 0 && leaf2[2] != 0 && leaf2[3] != 0 && leaf2[4]
            != 0);
        assert(spec_first_run(leaf2, 1int, 0) == spec_first_run(leaf2, 1int, 1)) by {
            assert(!spec_run_free(leaf2, 0, 1));
        }
        assert(spec_first_run(leaf2, 1int, 1) == spec_first_run(leaf2, 1int, 2)) by {
            assert(!spec_run_free(leaf2, 1, 1));
        }
        assert(spec_first_run(leaf2, 1int, 2) == spec_first_run(leaf2, 1int, 3)) by {
            assert(!spec_run_free(leaf2, 2, 1));
        }
        assert(spec_first_run(leaf2, 1int, 3) == spec_first_run(leaf2, 1int, 4)) by {
            assert(!spec_run_free(leaf2, 3, 1));
        }
        assert(spec_first_run(leaf2, 1int, 4) == spec_first_run(leaf2, 1int, 5)) by {
            assert(!spec_run_free(leaf2, 4, 1));
        }
        assert(spec_run_free(leaf2, 5, 1)) by {
            assert(leaf2[5] == leaf1[5] && leaf1[5] == leaf0[5]);
        }
        assert(spec_first_run(leaf2, 1int, 5) == 5);
    }
    let stack = match pa.alloc_next_page(frames, 1) {
        Some(p) => p,
        None => {
            return unreached();
        },
    };
    let ghost leaf3 = pa.leaf();
    proof {
        pa.lemma_wf_bounds();
        assert forall|k: int| 0 <= k < 6 implies spec_entry_present(#[trigger] leaf3[k]) by {
            if k < 5 {
                assert(leaf3[k] == leaf2[k]);
                if k == 0 {
                    assert(leaf2[0] == leaf1[0]);
                }
            }
        }
        assert forall|k: int| 6 <= k < 512 implies #[trigger] leaf3[k] == 0 by {
            assert(leaf3[k] == leaf2[k] && leaf2[k] == leaf1[k] && leaf1[k] == leaf0[k]);
        }
        assert(pa.leaf()[5] == leaf3[5]);
        assert(exists|idx: int|
            0 <= idx < fr3.total() && !fr3.bits()[idx] && frames.bits()[idx] && spec_frame_addr(
                fr3.mm(),
                idx,
            ) == spec_entry_addr(leaf3[5]));
        lemma_spawn_frames_live_established(
            pa,
            fr0,
            fr1,
            fr2,
            fr3,
            *frames,
            leaf1,
            leaf2,
            leaf3,
        );
    }
    (pa, program, heap, stack)
}

impl Multiprocessing {
    /// The bootstrap entry point: creates task zero with its program,
    /// heap and stack pages in a fresh user address space, opens the
    /// given node as file descriptor zero, and returns the switch that
    /// starts the task: a jump to the region base with the stack
    /// pointer just below the top of the stack page.  Callable only
    /// when no task exists yet.  Fails, changing nothing, exactly when
    /// fewer than nine frames are free.
    pub fn init(
        &mut self,
        frames: &mut PageFrameAllocator,
        kernel_pml4: &PageTable,
        physical_memory_offset: u64,
        stdin_out: u64,
    ) -> (r: Result<SwitchAction, SpawnError>)
        requires
            old(self).wf(),
            old(self).tasks@.len() == 0,
            old(frames).wf(),
            kernel_pml4.wf(),
        ensures
            final(self).wf(),
            final(frames).wf(),
            final(frames).mm() == old(frames).mm(),
            final(frames).total() == old(frames).total(),
            r is Ok <==> spec_count_set(old(frames).bits()) + 9 <= old(frames).total(),
            match r {
                Ok(act) => {
                    &&& final(self).tasks@.len() == 1
                    &&& final(self).current_id == 0
                    &&& final(self).tasks@[0].id == 0
                    &&& final(self).tasks@[0].registers == (Registers { rsp: 0, rbp: 0, rip: 0 })
                    &&& final(self).tasks@[0].state == TaskState::Running
                    &&& final(self).tasks@[0].open_fd@ == seq![(stdin_out, 0u64)]
                    &&& final(self).tasks@[0].page_allocator.backed_by(final(frames))
                    &&& spec_spawn_frames_live(
                        final(self).tasks@[0].page_allocator,
                        final(frames),
                    )
                    &&& forall|k: int|
                        0 <= k < 6 ==> spec_entry_present(
                            #[trigger] final(self).tasks@[0].page_allocator.leaf()[k],
                        )
                    &&& forall|k: int|
                        6 <= k < 512 ==> #[trigger] final(self).tasks@[0].page_allocator.leaf()[k]
                            == 0
                    &&& act.cr3 == final(self).tasks@[0].page_allocator.root()
                    &&& act.regs.rip == spec_task_base(0)
                    &&& act.regs.rsp == spec_task_stack_top(0)
                    &&& act.regs.rbp == spec_task_stack_top(0)
                    &&& spec_count_set(final(frames).bits()) == spec_count_set(
                        old(frames).bits(),
                    ) + 9
                },
                Err(_) => *final(self) == *old(self) && final(frames).bits() == old(
                    frames,
                ).bits(),
            },
    {
        proof {
            frames.lemma_wf_views();
        }
        let free = frames.free_frames();
        if free < 9 {
            return Err(SpawnError::OutOfMemory);
        }
        let (pa, program, heap, stack) = build_user_space(
            0,
            physical_memory_offset,
            kernel_pml4,
            frames,
        );
        let _ = heap;
        proof {
            pa.lemma_wf_bounds();
            crate::addressing::lemma_from_table_indexes_bound(pa.p4(), pa.p3(), 5, 1);
        }
        let stack_end = stack.start_address.as_u64() + (PAGE_SIZE - 8);
        let mut open_fd: Vec<(u64, u64)> = Vec::new();
        open_fd.push((stdin_out, 0));
        let cr3 = pa.root_table();
        let rip = program.start_address.as_u64();
        let task = Task {
            id: 0,
            registers: Registers::new(),
            page_allocator: pa,
            open_fd,
            state: TaskState::Running,
        };
        self.tasks.push(task);
        proof {
            assert(self.tasks@[0].open_fd@ =~= seq![(stdin_out, 0u64)]);
        }
        Ok(SwitchAction { cr3, regs: Registers { rsp: stack_end, rbp: stack_end, rip } })
    }

    /// Spawns a child of the currently running task: records the
    /// caller's captured stack, frame and return-address registers in
    /// the parent's task record, suspends the parent, builds the child
    /// identically to the bootstrap task under the next task id, and
    /// returns the switch that starts the child.  Fails, changing
    /// nothing, exactly when fewer than nine frames are free.
    pub fn execute(
        &mut self,
        saved: Registers,
        frames: &mut PageFrameAllocator,
        kernel_pml4: &PageTable,
        physical_memory_offset: u64,
        stdin_out: u64,
    ) -> (r: Result<SwitchAction, SpawnError>)
        requires
            old(self).wf(),
            1 <= old(self).tasks@.len() < 0x20000,
            old(frames).wf(),
            kernel_pml4.wf(),
        ensures
            final(self).wf(),
            final(frames).wf(),
            final(frames).mm() == old(frames).mm(),
            final(frames).total() == old(frames).total(),
            r is Ok <==> spec_count_set(old(frames).bits()) + 9 <= old(frames).total(),
            match r {
                Ok(act) => {
                    let child = final(self).tasks@.last();
                    &&& final(self).tasks@ == spec_after_execute(old(self).tasks@, saved, child)
                    &&& final(self).current_id == old(self).current_id + 1
                    &&& child.id == old(self).tasks@.len()
                    &&& child.state == TaskState::Running
                    &&& child.registers == (Registers { rsp: 0, rbp: 0, rip: 0 })
                    &&& child.open_fd@ == seq![(stdin_out, 0u64)]
                    &&& child.page_allocator.backed_by(final(frames))
                    &&& spec_spawn_frames_live(child.page_allocator, final(frames))
                    &&& forall|k: int|
                        0 <= k < 6 ==> spec_entry_present(
                            #[trigger] child.page_allocator.leaf()[k],
                        )
                    &&& forall|k: int| 6 <= k < 512 ==> #[trigger] child.page_allocator.leaf()[k] == 0
                    &&& act.cr3 == child.page_allocator.root()
                    &&& act.regs.rip == spec_task_base(child.id)
                    &&& act.regs.rsp == spec_task_stack_top(child.id)
                    &&& act.regs.rbp == spec_task_stack_top(child.id)
                    &&& spec_count_set(final(frames).bits()) == spec_count_set(
                        old(frames).bits(),
                    ) + 9
                },
                Err(_) => *final(self) == *old(self) && final(frames).bits() == old(
                    frames,
                ).bits(),
            },
    {
        proof {
            frames.lemma_wf_views();
        }
        let free = frames.free_frames();
        if free < 9 {
            return Err(SpawnError::OutOfMemory);
        }
        let ghost tasks0 = self.tasks@;
        let mut parent = match self.tasks.pop() {
            Some(t) => t,
            None => {
                return unreached();
            },
        };
        parent.registers = saved;
        parent.state = TaskState::Suspended;
        self.tasks.push(parent);
        proof {
            assert(self.tasks@ =~= tasks0.update(
                tasks0.len() - 1,
                spec_suspend(tasks0.last(), saved),
            ));
        }
        self.current_id = self.current_id + 1;
        let id = self.current_id;
        let (pa, program, heap, stack) = build_user_space(
            id,
            physical_memory_offset,
            kernel_pml4,
            frames,
        );
        let _ = heap;
        proof {
            pa.lemma_wf_bounds();
            crate::addressing::lemma_from_table_indexes_bound(pa.p4(), pa.p3(), 5, 1);
        }
        let stack_end = stack.start_address.as_u64() + (PAGE_SIZE - 8);
        let mut open_fd: Vec<(u64, u64)> = Vec::new();
        open_fd.push((stdin_out, 0));
        let cr3 = pa.root_table();
        let rip = program.start_address.as_u64();
        let child = Task {
            id,
            registers: Registers::new(),
            page_allocator: pa,
            open_fd,
            state: TaskState::Running,
        };
        self.tasks.push(child);
        proof {
            assert(self.tasks@ =~= spec_after_execute(tasks0, saved, self.tasks@.last()));
            assert(self.tasks@.last().open_fd@ =~= seq![(stdin_out, 0u64)]);
            assert(self.wf()) by {
                assert forall|t: int| 0 <= t < self.tasks@.len() implies {
                    let task = #[trigger] self.tasks@[t];
                    &&& task.id == t
                    &&& task.page_allocator.wf()
                    &&& task.page_allocator.user()
                    &&& task.page_allocator.p4() == spec_user_slot_p4(task.id)
                    &&& task.page_allocator.p3() == spec_user_slot_p3(task.id)
                    &&& task.state == if t == self.tasks@.len() - 1 {
                        TaskState::Running
                    } else {
                        TaskState::Suspended
                    }
                } by {
                    if t < tasks0.len() - 1 {
                        assert(self.tasks@[t] == tasks0[t]);
                    } else if t == tasks0.len() - 1 {
                        assert(self.tasks@[t] == spec_suspend(tasks0.last(), saved));
                    }
                }
            }
        }
        Ok(SwitchAction { cr3, regs: Registers { rsp: stack_end, rbp: stack_end, rip } })
    }

    /// Exits the currently running task: pops it from the registry,
    /// frees the six fixed-offset pages of its reserved region and the
    /// page-table frames it owned — exactly the bits behind those
    /// frames are cleared, every other bit keeps its value — resumes
    /// its parent, and returns the switch that loads the parent's
    /// address space and its saved registers, resuming the parent
    /// exactly where its spawn left off.  When the task still holds
    /// the nine distinct live frames its spawn gave it, the free-frame
    /// count returns to its pre-spawn value.  Fails, changing nothing,
    /// exactly when only the bootstrap task is left.
    pub fn exit(&mut self, frames: &mut PageFrameAllocator) -> (r: Result<
        SwitchAction,
        ExitError,
    >)
        requires
            old(self).wf(),
            old(frames).wf(),
            old(self).tasks@.len() >= 1 ==> old(self).tasks@.last().page_allocator.backed_by(
                old(frames),
            ),
        ensures
            final(self).wf(),
            final(frames).wf(),
            final(frames).mm() == old(frames).mm(),
            final(frames).total() == old(frames).total(),
            r is Ok <==> old(self).tasks@.len() >= 2,
            match r {
                Ok(act) => {
                    &&& final(self).tasks@ == spec_after_exit(old(self).tasks@)
                    &&& final(self).current_id == old(self).current_id - 1
                    &&& act.regs == old(self).tasks@[old(self).tasks@.len() - 2].registers
                    &&& act.cr3 == old(self).tasks@[old(self).tasks@.len()
                        - 2].page_allocator.root()
                    &&& forall|idx: int|
                        0 <= idx < final(frames).total() ==> #[trigger] final(frames).bits()[idx]
                            == (old(frames).bits()[idx] && !spec_among_region(
                            old(self).tasks@.last().page_allocator.leaf(),
                            spec_frame_addr(old(frames).mm(), idx),
                        ) && !spec_among_owned(
                            old(self).tasks@.last().page_allocator.owned(),
                            spec_frame_addr(old(frames).mm(), idx),
                        ))
                    &&& spec_spawn_frames_live(
                        old(self).tasks@.last().page_allocator,
                        old(frames),
                    ) ==> spec_count_set(final(frames).bits()) == spec_count_set(
                        old(frames).bits(),
                    ) - 9
                },
                Err(_) => *final(self) == *old(self) && final(frames).bits() == old(
                    frames,
                ).bits(),
            },
    {
        if self.tasks.len() < 2 {
            return Err(ExitError::NoParent);
        }
        proof {
            frames.lemma_wf_views();
        }
        let ghost tasks0 = self.tasks@;
        let mut child = match self.tasks.pop() {
            Some(t) => t,
            None => {
                return unreached();
            },
        };
        proof {
            assert(child == tasks0.last());
        }
        let ghost leaf0 = child.page_allocator.leaf();
        let ghost owned0 = child.page_allocator.owned();
        let ghost live = spec_spawn_frames_live(child.page_allocator, old(frames));
        self.current_id = self.current_id - 1;
        let indexes = child.page_allocator.reserved_indexes();
        let p4 = indexes.0;
        let p3 = indexes.1;
        proof {
            child.page_allocator.lemma_wf_bounds();
        }
        let ghost bits0 = frames.bits();
        let mut i: usize = 0;
        while i < 6
            invariant
                i <= 6,
                p4 < 512,
                p3 < 512,
                child.page_allocator.wf(),
                child.page_allocator.backed_by(frames),
                child.page_allocator.p4() == p4,
                child.page_allocator.p3() == p3,
                child.page_allocator.owned() == owned0,
                leaf0.len() == 512,
                leaf0 == tasks0.last().page_allocator.leaf(),
                owned0 == tasks0.last().page_allocator.owned(),
                live == spec_spawn_frames_live(tasks0.last().page_allocator, old(frames)),
                live ==> spec_count_set(frames.bits()) == spec_count_set(bits0) - i,
                forall|k: int|
                    i <= k < 512 ==> #[trigger] child.page_allocator.leaf()[k] == leaf0[k],
                frames.wf(),
                frames.mm() == old(frames).mm(),
                frames.total() == old(frames).total(),
                bits0 == old(frames).bits(),
                bits0.len() == frames.total(),
                forall|idx: int|
                    0 <= idx < frames.total() ==> #[trigger] frames.bits()[idx] == (bits0[idx]
                        && !spec_among_region_upto(
                        leaf0,
                        i as int,
                        spec_frame_addr(frames.mm(), idx),
                    )),
            decreases 6 - i,
        {
            let va = VirtAddr::from_table_indexes(p4, p3, i);
            let ghost pa_pre = child.page_allocator;
            let ghost frames_pre = *frames;
            let ghost entry = leaf0[i as int];
            let ghost hit = spec_entry_present(entry);
            proof {
                assert(crate::addressing::spec_p2_index(va@) == i as int);
                assert(pa_pre.leaf()[i as int] == entry);
                pa_pre.lemma_wf_bounds();
                if hit {
                    lemma_present_nonzero(entry);
                    assert(crate::page_alloc::spec_frame_tracked(
                        &frames_pre,
                        spec_entry_addr(entry) as int,
                    ));
                } else {
                    // a well-formed leaf entry is either unused or present
                    assert(entry == 0);
                }
            }
            let ghost w = choose|idx: int|
                0 <= idx < frames_pre.total() && spec_frame_addr(frames_pre.mm(), idx)
                    == spec_entry_addr(entry) as int;
            child.page_allocator.free_vaddr(frames, va);
            proof {
                frames.lemma_wf_views();
                frames_pre.lemma_wf_views();
                if hit {
                    assert(0 <= w < frames_pre.total() && spec_frame_addr(frames_pre.mm(), w)
                        == spec_entry_addr(entry));
                    assert(frames.bits() == frames_pre.bits().update(w, false));
                } else {
                    assert(frames.bits() == frames_pre.bits());
                }
                assert forall|idx: int|
                    0 <= idx < frames.total() implies #[trigger] frames.bits()[idx] == (bits0[
                    idx
                ] && !spec_among_region_upto(
                    leaf0,
                    i as int + 1,
                    spec_frame_addr(frames.mm(), idx),
                )) by {
                    lemma_among_region_step(leaf0, i as int, spec_frame_addr(frames.mm(), idx));
                    if hit && idx != w {
                        crate::frame_alloc::lemma_frame_exclusivity(frames.mm(), idx, w);
                    }
                }
                assert forall|k: int|
                    i as int + 1 <= k < 512 implies #[trigger] child.page_allocator.leaf()[k]
                    == leaf0[k] by {
                    assert(pa_pre.leaf()[k] == leaf0[k]);
                }
                if live {
                    // the bit behind this entry was still set, so the
                    // count drops by exactly one
                    let pa0 = tasks0.last().page_allocator;
                    assert(pa0.leaf()[i as int] == entry);
                    assert(hit);
                    let a_i = spec_entry_addr(entry) as int;
                    let idx0 = choose|idx: int|
                        0 <= idx < old(frames).total() && spec_frame_addr(old(frames).mm(), idx)
                            == spec_entry_addr(pa0.leaf()[i as int]) && old(frames).bits()[idx];
                    if idx0 != w {
                        crate::frame_alloc::lemma_frame_exclusivity(old(frames).mm(), idx0, w);
                    }
                    assert(bits0[w]);
                    assert(!spec_among_region_upto(leaf0, i as int, a_i)) by {
                        if spec_among_region_upto(leaf0, i as int, a_i) {
                            let kp = choose|k: int|
                                0 <= k < i as int && leaf0[k] != 0 && spec_entry_addr(leaf0[k])
                                    == a_i;
                            assert(pa0.leaf()[kp] == leaf0[kp]);
                            assert(spec_entry_addr(pa0.leaf()[kp]) != spec_entry_addr(
                                pa0.leaf()[i as int],
                            ));
                            assert(false);
                        }
                    }
                    assert(frames_pre.bits()[w]);
                    crate::frame_alloc::lemma_count_set_update(frames_pre.bits(), w, false);
                }
            }
            i += 1;
        }
        let ghost frames_mid = *frames;
        child.page_allocator.free_owned_tables(frames);
        proof {
            if live {
                // the three owned-table bits were still set and distinct,
                // so the teardown drops the count by three more
                frames.lemma_wf_views();
                frames_mid.lemma_wf_views();
                let pa0 = tasks0.last().page_allocator;
                let a1 = pa0.owned()[0].start_address@ as int;
                let a2 = pa0.owned()[1].start_address@ as int;
                let a3 = pa0.owned()[2].start_address@ as int;
                let w1 = choose|idx: int|
                    0 <= idx < old(frames).total() && spec_frame_addr(old(frames).mm(), idx)
                        == pa0.owned()[0].start_address@ && old(frames).bits()[idx];
                let w2 = choose|idx: int|
                    0 <= idx < old(frames).total() && spec_frame_addr(old(frames).mm(), idx)
                        == pa0.owned()[1].start_address@ && old(frames).bits()[idx];
                let w3 = choose|idx: int|
                    0 <= idx < old(frames).total() && spec_frame_addr(old(frames).mm(), idx)
                        == pa0.owned()[2].start_address@ && old(frames).bits()[idx];
                assert(a1 != a2 && a1 != a3 && a2 != a3);
                assert(w1 != w2 && w1 != w3 && w2 != w3);
                assert forall|t: int| 0 <= t < 3 implies !spec_among_region(
                    leaf0,
                    pa0.owned()[t].start_address@ as int,
                ) by {
                    if spec_among_region(leaf0, pa0.owned()[t].start_address@ as int) {
                        let kp = choose|k: int|
                            0 <= k < 6 && leaf0[k] != 0 && spec_entry_addr(leaf0[k]) == pa0.owned()[
                                t
                            ].start_address@ as int;
                        assert(pa0.leaf()[kp] == leaf0[kp]);
                        assert(spec_entry_addr(pa0.leaf()[kp]) != pa0.owned()[t].start_address@);
                        assert(false);
                    }
                }
                assert(frames_mid.bits()[w1] && frames_mid.bits()[w2] && frames_mid.bits()[w3]);
                let cleared = frames_mid.bits().update(w1, false).update(w2, false).update(
                    w3,
                    false,
                );
                assert forall|idx: int| 0 <= idx < frames.total() implies frames.bits()[idx]
                    == cleared[idx] by {
                    if idx == w1 || idx == w2 || idx == w3 {
                        assert(spec_among_owned(owned0, spec_frame_addr(old(frames).mm(), idx)));
                    } else {
                        assert(!spec_among_owned(owned0, spec_frame_addr(old(frames).mm(), idx)))
                            by {
                            if spec_among_owned(owned0, spec_frame_addr(old(frames).mm(), idx)) {
                                let t = choose|t: int|
                                    0 <= t < owned0.len() && owned0[t].start_address@
                                        == spec_frame_addr(old(frames).mm(), idx);
                                let wt = if t == 0 {
                                    w1
                                } else if t == 1 {
                                    w2
                                } else {
                                    w3
                                };
                                if idx != wt {
                                    crate::frame_alloc::lemma_frame_exclusivity(
                                        old(frames).mm(),
                                        idx,
                                        wt,
                                    );
                                }
                                assert(false);
                            }
                        }
                    }
                }
                assert(frames.bits() =~= cleared);
                crate::frame_alloc::lemma_count_set_update(frames_mid.bits(), w1, false);
                crate::frame_alloc::lemma_count_set_update(
                    frames_mid.bits().update(w1, false),
                    w2,
                    false,
                );
                crate::frame_alloc::lemma_count_set_update(
                    frames_mid.bits().update(w1, false).update(w2, false),
                    w3,
                    false,
                );
                assert(spec_count_set(frames.bits()) == spec_count_set(bits0) - 9);
            }
        }
        let mut parent = match self.tasks.pop() {
            Some(t) => t,
            None => {
                return unreached();
            },
        };
        parent.state = TaskState::Running;
        let act = SwitchAction {
            cr3: parent.page_allocator.root_table(),
            regs: parent.registers,
        };
        self.tasks.push(parent);
        proof {
            assert(self.tasks@ =~= spec_after_exit(tasks0));
            assert forall|idx: int|
                0 <= idx < frames.total() implies #[trigger] frames.bits()[idx] == (old(
                frames,
            ).bits()[idx] && !spec_among_region(
                tasks0.last().page_allocator.leaf(),
                spec_frame_addr(old(frames).mm(), idx),
            ) && !spec_among_owned(
                tasks0.last().page_allocator.owned(),
                spec_frame_addr(old(frames).mm(), idx),
            )) by {
                assert(frames_mid.bits()[idx] == (bits0[idx] && !spec_among_region(
                    leaf0,
                    spec_frame_addr(old(frames).mm(), idx),
                )));
            }
            assert(self.wf()) by {
                let rest = tasks0.drop_last();
                assert forall|t: int| 0 <= t < self.tasks@.len() implies {
                    let task = #[trigger] self.tasks@[t];
                    &&& task.id == t
                    &&& task.page_allocator.wf()
                    &&& task.page_allocator.user()
                    &&& task.page_allocator.p4() == spec_user_slot_p4(task.id)
                    &&& task.page_allocator.p3() == spec_user_slot_p3(task.id)
                    &&& task.state == if t == self.tasks@.len() - 1 {
                        TaskState::Running
                    } else {
                        TaskState::Suspended
                    }
                } by {
                    if t < rest.len() - 1 {
                        assert(self.tasks@[t] == tasks0[t]);
                    } else {
                        assert(self.tasks@[t] == spec_resume(rest.last()));
                        assert(rest.last() == tasks0[t]);
                    }
                }
            }
        }
        Ok(act)
    }
}

} // verus!
