//! The per-address-space page allocator: it owns one reserved slice of
//! the page-table hierarchy (a top-level/second-level index pair and the
//! leaf table under it) and maps virtual pages there to physical frames
//! taken from the frame allocator.

use vstd::prelude::*;
use vstd::pervasive::unreached;
use crate::addressing::{
    spec_from_table_indexes, spec_p2_index, spec_p3_index, spec_p4_index, spec_page_offset,
    PhysAddr, VirtAddr,
};
use crate::align::spec_is_aligned;
use crate::frame_alloc::{
    spec_count_set, spec_first_unset, spec_frame_addr, lemma_count_set_update,
    lemma_count_set_le, lemma_count_set_full, lemma_count_set_of_full, lemma_first_unset_full,
    lemma_frame_exclusivity, PageFrameAllocator,
};
use crate::paging::{
    lemma_entry_roundtrip, spec_entry_addr, spec_entry_flags, spec_entry_present, Frame, Page,
    PageTable, PageTableEntry, HUGE_PAGE, PAGE_SIZE, PRESENT, USER_ACCESSIBLE, WRITABLE,
};

verus! {

/// Why an address-space operation could not be completed.
#[derive(Clone, Copy, PartialEq, Eq, Structural, Debug)]
pub enum AllocError {
    /// The frame allocator has no free frame left.
    OutOfFrames,
}

/// Flags on the links between the levels of an owned table chain:
/// present, writable and user-accessible.
pub const INTERMEDIATE_FLAGS: u64 = 7;

/// The intermediate link flags are the three low permission bits, and
/// they include the present bit.
pub proof fn lemma_intermediate_flags()
    ensures
        PRESENT | WRITABLE | USER_ACCESSIBLE == INTERMEDIATE_FLAGS,
        INTERMEDIATE_FLAGS & 1 == 1,
{
    assert(1u64 | 2 | 4 == 7 && 7u64 & 1 == 1) by (bit_vector);
}

/// Whether the `no_pages` leaf entries starting at `i` are all unused.
pub open spec fn spec_run_free(leaf: Seq<u64>, i: int, no_pages: int) -> bool {
    forall|j: int| i <= j < i + no_pages ==> leaf[j] == 0
}

/// Index of the first run of `no_pages` unused leaf entries at or after
/// `from`, or 512 when no such run exists.
pub open spec fn spec_first_run(leaf: Seq<u64>, no_pages: int, from: int) -> int
    decreases 512 - from,
{
    if from < 0 || from + no_pages > 512 {
        512
    } else if spec_run_free(leaf, from, no_pages) {
        from
    } else {
        spec_first_run(leaf, no_pages, from + 1)
    }
}

/// The first free run lies between its starting point and the table
/// end.
pub proof fn lemma_first_run_bounds(leaf: Seq<u64>, no_pages: int, from: int)
    requires
        0 <= from <= 512,
        1 <= no_pages,
    ensures
        from <= spec_first_run(leaf, no_pages, from) <= 512,
    decreases 512 - from,
{
    if !(from + no_pages > 512) && !spec_run_free(leaf, from, no_pages) {
        lemma_first_run_bounds(leaf, no_pages, from + 1);
    }
}

/// The bitmap with the given frame indices all marked allocated, in
/// order.
pub open spec fn spec_set_many(s: Seq<bool>, idxs: Seq<int>) -> Seq<bool>
    decreases idxs.len(),
{
    if idxs.len() == 0 {
        s
    } else {
        spec_set_many(s, idxs.drop_last()).update(idxs.last(), true)
    }
}

/// Marking frames does not change the bitmap's length.
proof fn lemma_set_many_len(s: Seq<bool>, idxs: Seq<int>)
    requires
        forall|u: int| 0 <= u < idxs.len() ==> 0 <= #[trigger] idxs[u] < s.len(),
    ensures
        spec_set_many(s, idxs).len() == s.len(),
    decreases idxs.len(),
{
    if idxs.len() > 0 {
        assert(forall|u: int|
            0 <= u < idxs.drop_last().len() ==> idxs.drop_last()[u] == idxs[u]);
        lemma_set_many_len(s, idxs.drop_last());
    }
}

/// A bit whose index is not among the marked ones keeps its value.
proof fn lemma_set_many_other(s: Seq<bool>, idxs: Seq<int>, i: int)
    requires
        0 <= i < s.len(),
        forall|u: int| 0 <= u < idxs.len() ==> 0 <= #[trigger] idxs[u] < s.len(),
        forall|t: int| 0 <= t < idxs.len() ==> idxs[t] != i,
    ensures
        spec_set_many(s, idxs)[i] == s[i],
    decreases idxs.len(),
{
    if idxs.len() > 0 {
        assert(forall|t: int|
            0 <= t < idxs.drop_last().len() ==> idxs.drop_last()[t] == idxs[t]);
        lemma_set_many_len(s, idxs.drop_last());
        lemma_set_many_other(s, idxs.drop_last(), i);
        assert(idxs.last() != i);
    }
}

/// A marked index reads back as allocated.
proof fn lemma_set_many_member(s: Seq<bool>, idxs: Seq<int>, t: int)
    requires
        0 <= t < idxs.len(),
        forall|u: int| 0 <= u < idxs.len() ==> 0 <= #[trigger] idxs[u] < s.len(),
    ensures
        spec_set_many(s, idxs)[idxs[t]],
    decreases idxs.len(),
{
    lemma_set_many_len(s, idxs.drop_last());
    if t < idxs.len() - 1 {
        assert(forall|u: int|
            0 <= u < idxs.drop_last().len() ==> idxs.drop_last()[u] == idxs[u]);
        lemma_set_many_member(s, idxs.drop_last(), t);
    }
}

/// Finds the lowest index at which a run of `no_pages` consecutive
/// unused entries starts, or 512 when the table has no such run.
fn find_first_run(leaf: &PageTable, no_pages: usize) -> (r: usize)
    requires
        leaf.wf(),
        1 <= no_pages <= 512,
    ensures
        r as int == spec_first_run(leaf@, no_pages as int, 0),
        r <= 512,
        r < 512 ==> r + no_pages <= 512 && spec_run_free(leaf@, r as int, no_pages as int),
{
    let mut from: usize = 0;
    while from + no_pages <= 512
        invariant
            leaf.wf(),
            1 <= no_pages <= 512,
            from <= 512,
            spec_first_run(leaf@, no_pages as int, 0) == spec_first_run(
                leaf@,
                no_pages as int,
                from as int,
            ),
        decreases 512 - from,
    {
        let mut j: usize = 0;
        let mut free = true;
        while j < no_pages && free
            invariant
                leaf.wf(),
                1 <= no_pages <= 512,
                from + no_pages <= 512,
                j <= no_pages,
                free ==> forall|t: int| from <= t < from + j ==> leaf@[t] == 0,
                !free ==> !spec_run_free(leaf@, from as int, no_pages as int),
            decreases no_pages - j,
        {
            if !leaf.entries[from + j].is_unused() {
                proof {
                    assert(leaf@[from + j] != 0);
                }
                free = false;
            }
            j += 1;
        }
        if free {
            proof {
                assert(spec_run_free(leaf@, from as int, no_pages as int));
                assert(spec_first_run(leaf@, no_pages as int, from as int) == from);
            }
            return from;
        }
        proof {
            assert(spec_first_run(leaf@, no_pages as int, from as int) == spec_first_run(
                leaf@,
                no_pages as int,
                from as int + 1,
            ));
        }
        from += 1;
    }
    proof {
        assert(spec_first_run(leaf@, no_pages as int, from as int) == 512);
    }
    512
}

/// Whether some tracked frame of the allocator starts at this address.
pub open spec fn spec_frame_tracked(fa: &PageFrameAllocator, addr: int) -> bool {
    exists|idx: int| 0 <= idx < fa.total() && spec_frame_addr(fa.mm(), idx) == addr
}

/// A tracked address stays tracked by any allocator over the same map.
pub proof fn lemma_tracked_carries(fa1: &PageFrameAllocator, fa2: &PageFrameAllocator, addr: int)
    requires
        spec_frame_tracked(fa1, addr),
        fa2.mm() == fa1.mm(),
        fa2.total() == fa1.total(),
    ensures
        spec_frame_tracked(fa2, addr),
{
    let w = choose|idx: int| 0 <= idx < fa1.total() && spec_frame_addr(fa1.mm(), idx) == addr;
    assert(0 <= w < fa2.total() && spec_frame_addr(fa2.mm(), w) == addr);
}

/// The address of any tracked frame index is tracked.
pub proof fn lemma_tracked_intro(fa: &PageFrameAllocator, idx: int)
    requires
        0 <= idx < fa.total(),
    ensures
        spec_frame_tracked(fa, spec_frame_addr(fa.mm(), idx)),
{
    assert(0 <= idx < fa.total() && spec_frame_addr(fa.mm(), idx) == spec_frame_addr(
        fa.mm(),
        idx,
    ));
}

/// Whether the given address is the base of one of the listed frames.
pub open spec fn spec_among_owned(owned: Seq<Frame>, addr: int) -> bool {
    exists|t: int| 0 <= t < owned.len() && owned[t].start_address@ == addr
}

/// Peeling the first frame off a tail of the list splits membership
/// into that frame's address and membership in the rest.
proof fn lemma_among_owned_front(owned: Seq<Frame>, m: int, a: int)
    requires
        1 <= m <= owned.len(),
    ensures
        spec_among_owned(owned.subrange(m - 1, owned.len() as int), a) == (owned[
            m - 1
        ].start_address@ == a || spec_among_owned(owned.subrange(m, owned.len() as int), a)),
{
    let with_head = owned.subrange(m - 1, owned.len() as int);
    let rest = owned.subrange(m, owned.len() as int);
    if spec_among_owned(with_head, a) {
        let t = choose|t: int| 0 <= t < with_head.len() && with_head[t].start_address@ == a;
        if t == 0 {
            assert(with_head[0] == owned[m - 1]);
        } else {
            assert(rest[t - 1] == with_head[t]);
            assert(spec_among_owned(rest, a));
        }
    }
    if owned[m - 1].start_address@ == a {
        assert(with_head[0] == owned[m - 1]);
        assert(spec_among_owned(with_head, a));
    }
    if spec_among_owned(rest, a) {
        let t = choose|t: int| 0 <= t < rest.len() && rest[t].start_address@ == a;
        assert(with_head[t + 1] == rest[t]);
        assert(spec_among_owned(with_head, a));
    }
}

/// An address space stays backed when its nonzero leaf entries and its
/// owned tables are unchanged and the frame allocator still tracks the
/// same memory map.
proof fn lemma_backed_carries(
    a1: PageAllocator,
    fa1: PageFrameAllocator,
    a2: PageAllocator,
    fa2: PageFrameAllocator,
)
    requires
        a1.backed_by(&fa1),
        fa2.mm() == fa1.mm(),
        fa2.total() == fa1.total(),
        a2.owned() == a1.owned(),
        forall|i: int|
            0 <= i < 512 && #[trigger] a2.leaf()[i] != 0 ==> a2.leaf()[i] == a1.leaf()[i],
    ensures
        a2.backed_by(&fa2),
{
    assert forall|i: int| 0 <= i < 512 && #[trigger] a2.leaf()[i] != 0 implies spec_frame_tracked(
        &fa2,
        spec_entry_addr(a2.leaf()[i]) as int,
    ) by {
        assert(a1.leaf()[i] != 0);
        lemma_tracked_carries(&fa1, &fa2, spec_entry_addr(a1.leaf()[i]) as int);
    }
    assert forall|t: int| 0 <= t < a2.owned().len() implies spec_frame_tracked(
        &fa2,
        #[trigger] a2.owned()[t].start_address@ as int,
    ) by {
        assert(a2.owned()[t] == a1.owned()[t]);
        lemma_tracked_carries(&fa1, &fa2, a1.owned()[t].start_address@ as int);
    }
}

/// Flags stored in the leaf entries of a kernel or user address space.
pub open spec fn spec_leaf_flags(user: bool) -> u64 {
    if user {
        135u64  // PRESENT | WRITABLE | HUGE_PAGE | USER_ACCESSIBLE
    } else {
        131u64  // PRESENT | WRITABLE | HUGE_PAGE
    }
}

/// One address space: the physical base of its top-level table, the
/// reserved top-level/second-level index pair it owns, and the tables it
/// allocated itself (empty for the kernel space, which reuses the boot
/// tables).
pub struct PageAllocator {
    pml4_base: u64,
    current_page_indexes: (usize, usize),
    physical_memory_offset: u64,
    is_user: bool,
    pml4_table: Option<PageTable>,
    p3_table: Option<PageTable>,
    leaf_table: PageTable,
    owned_tables: Vec<Frame>,
}

impl PageAllocator {
    /// Reserved top-level index.
    pub closed spec fn p4(&self) -> int {
        self.current_page_indexes.0 as int
    }

    /// Reserved second-level index.
    pub closed spec fn p3(&self) -> int {
        self.current_page_indexes.1 as int
    }

    /// Whether this space maps user-accessible pages.
    pub closed spec fn user(&self) -> bool {
        self.is_user
    }

    /// Physical base address of the top-level table (the value loaded
    /// into the paging base register on a switch).
    pub closed spec fn root(&self) -> u64 {
        self.pml4_base
    }

    /// Physical-to-virtual mapping offset of the kernel.
    pub closed spec fn offset(&self) -> u64 {
        self.physical_memory_offset
    }

    /// Raw entries of the leaf table this space fills.
    pub closed spec fn leaf(&self) -> Seq<u64> {
        self.leaf_table@
    }

    /// Raw entries of the owned top-level table (user spaces).
    pub closed spec fn pml4_entries(&self) -> Seq<u64> {
        match self.pml4_table {
            Some(t) => t@,
            None => Seq::<u64>::empty(),
        }
    }

    /// Raw entries of the owned second-level table (user spaces).
    pub closed spec fn p3_entries(&self) -> Seq<u64> {
        match self.p3_table {
            Some(t) => t@,
            None => Seq::<u64>::empty(),
        }
    }

    /// Physical frames backing the tables this space allocated.
    pub closed spec fn owned(&self) -> Seq<Frame> {
        self.owned_tables@
    }

    /// Bounds a well-formed address space guarantees for its views:
    /// index pair and leaf length in range, and every leaf entry either
    /// unused or present with a frame-aligned address.
    pub proof fn lemma_wf_bounds(&self)
        ensures
            self.wf() ==> 0 <= self.p4() < 512 && 0 <= self.p3() < 512 && self.leaf().len()
                == 512,
            self.wf() ==> forall|i: int|
                0 <= i < 512 ==> #[trigger] self.leaf()[i] == 0 || (spec_entry_present(
                    self.leaf()[i],
                ) && spec_is_aligned(spec_entry_addr(self.leaf()[i]) as int, PAGE_SIZE as int)),
    {
    }

    /// Structural well-formedness: the index pair is in range, the leaf
    /// table is complete, and every leaf entry is either entirely unused
    /// or present with a frame-aligned physical address.
    pub closed spec fn wf(&self) -> bool {
        &&& 0 <= self.p4() < 512
        &&& 0 <= self.p3() < 512
        &&& self.leaf_table.wf()
        &&& forall|i: int|
            0 <= i < 512 ==> #[trigger] self.leaf()[i] == 0 || (spec_entry_present(self.leaf()[i])
                && spec_is_aligned(spec_entry_addr(self.leaf()[i]) as int, PAGE_SIZE as int))
        &&& self.is_user ==> {
            &&& self.p4() < 256
            &&& self.pml4_table is Some
            &&& self.p3_table is Some
            &&& self.pml4_entries().len() == 512
            &&& self.p3_entries().len() == 512
            &&& self.owned().len() == 3
        }
        &&& !self.is_user ==> {
            &&& self.pml4_table is None
            &&& self.p3_table is None
            &&& self.owned().len() == 0
        }
    }

    /// Every frame this space refers to (mapped pages and owned tables)
    /// is one the given frame allocator tracks, so it can be returned.
    pub open spec fn backed_by(&self, fa: &PageFrameAllocator) -> bool {
        &&& forall|i: int|
            0 <= i < 512 && #[trigger] self.leaf()[i] != 0 ==> spec_frame_tracked(
                fa,
                spec_entry_addr(self.leaf()[i]) as int,
            )
        &&& forall|t: int|
            0 <= t < self.owned().len() ==> spec_frame_tracked(
                fa,
                #[trigger] self.owned()[t].start_address@ as int,
            )
    }

    /// Physical base address of this space's top-level table, as loaded
    /// into the paging base register on a switch.
    #[inline]
    pub fn root_table(&self) -> (r: u64)
        ensures
            r == self.root(),
    {
        self.pml4_base
    }

    /// The reserved top-level/second-level index pair this space owns.
    #[inline]
    pub fn reserved_indexes(&self) -> (r: (usize, usize))
        ensures
            r.0 == self.p4(),
            r.1 == self.p3(),
    {
        self.current_page_indexes
    }

    /// Frees every page-table frame this space allocated for itself,
    /// leaving nothing owned: the teardown step when a task exits.
    /// Exactly the bits of the owned frames are cleared; every other
    /// bit keeps its value.
    pub fn free_owned_tables(&mut self, frames: &mut PageFrameAllocator)
        requires
            old(self).wf(),
            old(frames).wf(),
            old(self).backed_by(old(frames)),
        ensures
            final(frames).wf(),
            final(frames).mm() == old(frames).mm(),
            final(frames).total() == old(frames).total(),
            final(self).owned().len() == 0,
            final(self).leaf() == old(self).leaf(),
            forall|idx: int|
                0 <= idx < final(frames).total() ==> #[trigger] final(frames).bits()[idx] == (
                old(frames).bits()[idx] && !spec_among_owned(
                    old(self).owned(),
                    spec_frame_addr(old(frames).mm(), idx),
                )),
    {
        proof {
            frames.lemma_wf_views();
        }
        let ghost bits0 = frames.bits();
        let ghost owned0 = self.owned_tables@;
        let ghost total_len = owned0.len() as int;
        proof {
            assert(owned0.subrange(0, total_len) =~= owned0);
        }
        while self.owned_tables.len() > 0
            invariant
                frames.wf(),
                frames.mm() == old(frames).mm(),
                frames.total() == old(frames).total(),
                bits0 == old(frames).bits(),
                bits0.len() == old(frames).total(),
                total_len == owned0.len(),
                self.leaf_table == old(self).leaf_table,
                self.owned_tables@.len() <= total_len,
                self.owned_tables@ == owned0.subrange(0, self.owned_tables@.len() as int),
                forall|t: int|
                    0 <= t < self.owned_tables@.len() ==> spec_frame_tracked(
                        frames,
                        #[trigger] self.owned_tables@[t].start_address@ as int,
                    ),
                forall|idx: int|
                    0 <= idx < frames.total() ==> #[trigger] frames.bits()[idx] == (bits0[idx]
                        && !spec_among_owned(
                        owned0.subrange(self.owned_tables@.len() as int, total_len),
                        spec_frame_addr(frames.mm(), idx),
                    )),
            decreases self.owned_tables.len(),
        {
            let ghost m = self.owned_tables@.len() as int;
            let ghost a = self.owned_tables@.last().start_address@ as int;
            proof {
                assert(spec_frame_tracked(
                    frames,
                    self.owned_tables@[self.owned_tables@.len() - 1].start_address@ as int,
                ));
            }
            let f = match self.owned_tables.pop() {
                Some(f) => f,
                None => {
                    return unreached();
                },
            };
            proof {
                assert(f == owned0[m - 1]);
                assert(self.owned_tables@ =~= owned0.subrange(0, m - 1));
            }
            let ghost w = choose|idx: int|
                0 <= idx < frames.total() && spec_frame_addr(frames.mm(), idx) == a;
            let ghost bits_pre = frames.bits();
            let ghost frames_pre = *frames;
            proof {
                frames.lemma_wf_views();
                assert(0 <= w < frames.total() && spec_frame_addr(frames.mm(), w)
                    == f.start_address@);
            }
            frames.free(f);
            proof {
                frames.lemma_wf_views();
                assert(frames.bits() == bits_pre.update(w, false));
                assert forall|idx: int|
                    0 <= idx < frames.total() implies #[trigger] frames.bits()[idx] == (bits0[
                    idx
                ] && !spec_among_owned(
                    owned0.subrange(m - 1, total_len),
                    spec_frame_addr(frames.mm(), idx),
                )) by {
                    lemma_among_owned_front(owned0, m, spec_frame_addr(frames.mm(), idx));
                    if idx != w {
                        crate::frame_alloc::lemma_frame_exclusivity(frames.mm(), idx, w);
                    }
                }
                assert forall|t: int| 0 <= t < self.owned_tables@.len() implies spec_frame_tracked(
                    frames,
                    #[trigger] self.owned_tables@[t].start_address@ as int,
                ) by {
                    lemma_tracked_carries(
                        &frames_pre,
                        frames,
                        self.owned_tables@[t].start_address@ as int,
                    );
                }
            }
        }
        proof {
            assert(owned0.subrange(0, 0) =~= Seq::<Frame>::empty());
        }
    }

    /// Creates the kernel address space: it reuses the already active
    /// top-level table, restricted to the given reserved index pair.
    /// The physical base of the active table is read by boot code and
    /// handed in.
    pub fn new_kernel(p4: usize, p3: usize, physical_memory_offset: u64, pml4_base: u64) -> (r:
        Self)
        requires
            p4 < 512,
            p3 < 512,
        ensures
            r.wf(),
            !r.user(),
            r.p4() == p4,
            r.p3() == p3,
            r.offset() == physical_memory_offset,
            r.root() == pml4_base,
            forall|i: int| 0 <= i < 512 ==> r.leaf()[i] == 0,
    {
        PageAllocator {
            pml4_base,
            current_page_indexes: (p4, p3),
            physical_memory_offset,
            is_user: false,
            pml4_table: None,
            p3_table: None,
            leaf_table: PageTable::new(),
            owned_tables: Vec::new(),
        }
    }

    /// Creates an address-space descriptor for the given reserved index
    /// pair on the active tables.
    pub fn new(p4: usize, p3: usize, physical_memory_offset: u64, pml4_base: u64) -> (r: Self)
        requires
            p4 < 512,
            p3 < 512,
        ensures
            r.wf(),
            !r.user(),
            r.p4() == p4,
            r.p3() == p3,
            r.offset() == physical_memory_offset,
            r.root() == pml4_base,
            forall|i: int| 0 <= i < 512 ==> r.leaf()[i] == 0,
    {
        Self::new_kernel(p4, p3, physical_memory_offset, pml4_base)
    }

    /// Creates a fresh user address space on the given reserved index
    /// pair: allocates a top-level table, a second-level table and a
    /// leaf table from the frame allocator, links them, and copies the
    /// kernel's high-half top-level entries into the new table so that
    /// kernel code and data stay mapped after a switch.  The frames of
    /// all three tables are recorded for teardown at task exit.
    /// Fails, leaving the frame allocator unchanged, exactly when fewer
    /// than three frames are free.
    pub fn new_user(
        physical_memory_offset: u64,
        p4: usize,
        p3: usize,
        kernel_pml4: &PageTable,
        frames: &mut PageFrameAllocator,
    ) -> (r: Result<PageAllocator, AllocError>)
        requires
            p4 < 256,
            p3 < 512,
            kernel_pml4.wf(),
            old(frames).wf(),
        ensures
            final(frames).wf(),
            final(frames).mm() == old(frames).mm(),
            final(frames).total() == old(frames).total(),
            r is Ok <==> spec_count_set(old(frames).bits()) + 3 <= old(frames).total(),
            match r {
                Ok(a) => {
                    &&& a.wf()
                    &&& a.user()
                    &&& a.p4() == p4
                    &&& a.p3() == p3
                    &&& a.offset() == physical_memory_offset
                    &&& forall|i: int| 0 <= i < 512 ==> a.leaf()[i] == 0
                    &&& a.owned().len() == 3
                    &&& a.root() == a.owned()[0].start_address@
                    &&& a.backed_by(final(frames))
                    &&& forall|i: int|
                        256 <= i < 512 ==> a.pml4_entries()[i] == kernel_pml4@[i]
                    &&& forall|i: int|
                        0 <= i < 256 && i != p4 ==> a.pml4_entries()[i] == 0
                    &&& spec_entry_present(a.pml4_entries()[p4 as int])
                    &&& spec_entry_addr(a.pml4_entries()[p4 as int])
                        == a.owned()[1].start_address@
                    &&& forall|i: int| 0 <= i < 512 && i != p3 ==> a.p3_entries()[i] == 0
                    &&& spec_entry_present(a.p3_entries()[p3 as int])
                    &&& spec_entry_addr(a.p3_entries()[p3 as int]) == a.owned()[2].start_address@
                    &&& forall|t1: int, t2: int|
                        0 <= t1 < t2 < 3 ==> a.owned()[t1].start_address@
                            != a.owned()[t2].start_address@
                    &&& forall|t: int|
                        0 <= t < 3 ==> exists|idx: int|
                            0 <= idx < old(frames).total() && !old(frames).bits()[idx]
                                && final(frames).bits()[idx] && spec_frame_addr(
                                old(frames).mm(),
                                idx,
                            ) == #[trigger] a.owned()[t].start_address@
                    &&& forall|idx: int|
                        0 <= idx < old(frames).total() && old(frames).bits()[idx]
                            ==> #[trigger] final(frames).bits()[idx]
                    &&& spec_count_set(final(frames).bits()) == spec_count_set(
                        old(frames).bits(),
                    ) + 3
                },
                Err(_) => final(frames).bits() == old(frames).bits(),
            },
    {
        let ghost bits0 = frames.bits();
        let ghost mm = frames.mm();
        proof {
            frames.lemma_wf_views();
            lemma_count_set_le(bits0);
        }
        let pml4_frame = match frames.alloc_next() {
            Some(f) => f,
            None => {
                proof {
                    lemma_first_unset_full(bits0);
                    lemma_count_set_of_full(bits0);
                }
                return Err(AllocError::OutOfFrames);
            },
        };
        let ghost i1 = spec_first_unset(bits0, 0);
        let ghost bits1 = frames.bits();
        proof {
            frames.lemma_wf_views();
            lemma_count_set_update(bits0, i1, true);
            lemma_count_set_le(bits1);
            if spec_count_set(bits0) == old(frames).total() {
                lemma_count_set_full(bits0);
                lemma_first_unset_full(bits0);
                assert(false);
            }
        }
        let p3_frame = match frames.alloc_next() {
            Some(f) => f,
            None => {
                proof {
                    lemma_first_unset_full(bits1);
                    lemma_count_set_of_full(bits1);
                }
                proof {
                    assert(0 <= i1 < frames.total() && spec_frame_addr(frames.mm(), i1)
                        == pml4_frame.start_address@);
                }
                frames.free(pml4_frame);
                proof {
                    assert(frames.bits() =~= bits0);
                }
                return Err(AllocError::OutOfFrames);
            },
        };
        let ghost i2 = spec_first_unset(bits1, 0);
        let ghost bits2 = frames.bits();
        proof {
            frames.lemma_wf_views();
            lemma_count_set_update(bits1, i2, true);
            lemma_count_set_le(bits2);
            if spec_count_set(bits0) + 1 == old(frames).total() {
                lemma_count_set_full(bits1);
                lemma_first_unset_full(bits1);
                assert(false);
            }
        }
        let leaf_frame = match frames.alloc_next() {
            Some(f) => f,
            None => {
                proof {
                    lemma_first_unset_full(bits2);
                    lemma_count_set_of_full(bits2);
                }
                proof {
                    assert(0 <= i2 < frames.total() && spec_frame_addr(frames.mm(), i2)
                        == p3_frame.start_address@);
                }
                frames.free(p3_frame);
                let ghost bits_a = frames.bits();
                proof {
                    assert(bits_a == bits2.update(i2, false));
                    crate::frame_alloc::lemma_frame_exclusivity(mm, i1, i2);
                    assert(0 <= i1 < frames.total() && spec_frame_addr(frames.mm(), i1)
                        == pml4_frame.start_address@);
                }
                frames.free(pml4_frame);
                proof {
                    assert(frames.bits() == bits_a.update(i1, false));
                    assert(frames.bits() =~= bits0);
                }
                return Err(AllocError::OutOfFrames);
            },
        };
        let ghost i3 = spec_first_unset(bits2, 0);
        proof {
            frames.lemma_wf_views();
            lemma_count_set_update(bits2, i3, true);
            lemma_count_set_le(bits2);
            if spec_count_set(bits2) == old(frames).total() {
                lemma_count_set_full(bits2);
                assert(false);
            }
            assert(spec_count_set(bits0) + 3 <= old(frames).total());
            crate::frame_alloc::lemma_frame_exclusivity(mm, i1, i2);
            crate::frame_alloc::lemma_frame_exclusivity(mm, i1, i3);
            crate::frame_alloc::lemma_frame_exclusivity(mm, i2, i3);
            crate::frame_alloc::lemma_frame_addr_bounds(mm, i1);
            crate::frame_alloc::lemma_frame_addr_bounds(mm, i2);
            crate::frame_alloc::lemma_frame_addr_bounds(mm, i3);
            crate::paging::lemma_leaf_flags();
            lemma_intermediate_flags();
        }
        // link the hierarchy: the new top-level table points at the new
        // second-level table, which points at the new leaf table
        let mut pml4 = PageTable::new();
        let mut i: usize = 256;
        while i < 512
            invariant
                kernel_pml4.wf(),
                pml4.wf(),
                256 <= i <= 512,
                pml4.entries.len() == 512,
                kernel_pml4.entries.len() == 512,
                forall|k: int| 0 <= k < 256 ==> pml4@[k] == 0,
                forall|k: int| 256 <= k < i ==> pml4@[k] == kernel_pml4@[k],
                forall|k: int| i <= k < 512 ==> pml4@[k] == 0,
            decreases 512 - i,
        {
            let e = kernel_pml4.entries[i];
            let ghost pre = pml4@;
            pml4.entries.set(i, e);
            proof {
                assert(pml4@ =~= pre.update(i as int, e@));
                assert(kernel_pml4@[i as int] == e@);
            }
            i += 1;
        }
        let mut link = PageTableEntry::new();
        link.set_addr(p3_frame.start_address.as_u64(), INTERMEDIATE_FLAGS);
        let ghost pre4 = pml4@;
        pml4.entries.set(p4, link);
        let mut p3t = PageTable::new();
        let mut link3 = PageTableEntry::new();
        link3.set_addr(leaf_frame.start_address.as_u64(), INTERMEDIATE_FLAGS);
        let ghost pre3 = p3t@;
        p3t.entries.set(p3, link3);
        proof {
            assert(pml4@ =~= pre4.update(p4 as int, link@));
            assert(p3t@ =~= pre3.update(p3 as int, link3@));
            lemma_entry_roundtrip(p3_frame.start_address@, INTERMEDIATE_FLAGS);
            lemma_entry_roundtrip(leaf_frame.start_address@, INTERMEDIATE_FLAGS);
        }
        let mut owned_tables: Vec<Frame> = Vec::new();
        owned_tables.push(pml4_frame);
        owned_tables.push(p3_frame);
        owned_tables.push(leaf_frame);
        let a = PageAllocator {
            pml4_base: pml4_frame.start_address.as_u64(),
            current_page_indexes: (p4, p3),
            physical_memory_offset,
            is_user: true,
            pml4_table: Some(pml4),
            p3_table: Some(p3t),
            leaf_table: PageTable::new(),
            owned_tables,
        };
        proof {
            assert(a.wf());
            assert(a.backed_by(frames)) by {
                lemma_tracked_intro(frames, i1);
                lemma_tracked_intro(frames, i2);
                lemma_tracked_intro(frames, i3);
                assert(a.owned()[0] == pml4_frame && a.owned()[1] == p3_frame && a.owned()[2]
                    == leaf_frame);
                assert(forall|i: int| 0 <= i < 512 ==> a.leaf()[i] == 0);
            }
            assert(forall|i: int| 0 <= i < 512 ==> a.leaf()[i] == 0);
            assert(a.owned()[0] == pml4_frame && a.owned()[1] == p3_frame && a.owned()[2]
                == leaf_frame);
            assert(forall|i: int| 256 <= i < 512 ==> a.pml4_entries()[i] == kernel_pml4@[i]);
            assert(forall|i: int| 0 <= i < 256 && i != p4 ==> a.pml4_entries()[i] == 0);
            assert(spec_entry_present(a.pml4_entries()[p4 as int]));
            assert(spec_entry_addr(a.pml4_entries()[p4 as int]) == a.owned()[1].start_address@);
            assert(forall|i: int| 0 <= i < 512 && i != p3 ==> a.p3_entries()[i] == 0);
            assert(spec_entry_present(a.p3_entries()[p3 as int]));
            assert(spec_count_set(frames.bits()) == spec_count_set(bits0) + 3);
            assert(forall|idx: int|
                0 <= idx < old(frames).total() && old(frames).bits()[idx]
                    ==> #[trigger] frames.bits()[idx]);
            // the three table frames were free before the call and are
            // marked allocated after it
            assert(i1 != i2 && i1 != i3 && i2 != i3);
            assert(!bits0[i1] && !bits0[i2] && !bits0[i3]);
            assert(frames.bits()[i1] && frames.bits()[i2] && frames.bits()[i3]);
            assert forall|t: int| 0 <= t < 3 implies exists|idx: int|
                0 <= idx < old(frames).total() && !old(frames).bits()[idx]
                    && frames.bits()[idx] && spec_frame_addr(old(frames).mm(), idx)
                    == #[trigger] a.owned()[t].start_address@ by {
                if t == 0 {
                    assert(0 <= i1 < old(frames).total() && !old(frames).bits()[i1]
                        && frames.bits()[i1] && spec_frame_addr(old(frames).mm(), i1)
                        == a.owned()[0].start_address@);
                } else if t == 1 {
                    assert(0 <= i2 < old(frames).total() && !old(frames).bits()[i2]
                        && frames.bits()[i2] && spec_frame_addr(old(frames).mm(), i2)
                        == a.owned()[1].start_address@);
                } else {
                    assert(0 <= i3 < old(frames).total() && !old(frames).bits()[i3]
                        && frames.bits()[i3] && spec_frame_addr(old(frames).mm(), i3)
                        == a.owned()[2].start_address@);
                }
            }
        }
        Ok(a)
    }

    /// Creates virtual address mappings for the next `no_pages` free
    /// pages in this space's reserved slice: finds the first run of that
    /// many contiguous unused leaf entries and maps each one to a
    /// freshly allocated frame.  If the frames run out part way, every
    /// page mapped earlier in the same call is unmapped and its frame
    /// freed before reporting failure: the operation is all-or-nothing.
    /// Fails exactly when no run of the requested length exists or
    /// fewer frames than requested are free.
    pub fn alloc_next_page(&mut self, frames: &mut PageFrameAllocator, no_pages: usize) -> (r:
        Option<Page>)
        requires
            old(self).wf(),
            old(frames).wf(),
            1 <= no_pages,
            old(self).backed_by(old(frames)),
        ensures
            final(self).wf(),
            final(frames).wf(),
            final(self).backed_by(final(frames)),
            final(frames).mm() == old(frames).mm(),
            final(frames).total() == old(frames).total(),
            final(self).p4() == old(self).p4(),
            final(self).p3() == old(self).p3(),
            final(self).user() == old(self).user(),
            final(self).root() == old(self).root(),
            final(self).offset() == old(self).offset(),
            final(self).owned() == old(self).owned(),
            final(self).pml4_entries() == old(self).pml4_entries(),
            final(self).p3_entries() == old(self).p3_entries(),
            r is Some <==> (spec_first_run(old(self).leaf(), no_pages as int, 0) < 512
                && spec_count_set(old(frames).bits()) + no_pages <= old(frames).total()),
            match r {
                None => final(self).leaf() == old(self).leaf() && final(frames).bits() == old(
                    frames,
                ).bits(),
                Some(page) => {
                    let start = spec_first_run(old(self).leaf(), no_pages as int, 0);
                    &&& start + no_pages <= 512
                    &&& page.start_address@ == spec_from_table_indexes(
                        old(self).p4(),
                        old(self).p3(),
                        start,
                    )
                    &&& forall|k: int|
                        0 <= k < 512 && !(start <= k < start + no_pages)
                            ==> #[trigger] final(self).leaf()[k] == old(self).leaf()[k]
                    &&& forall|k: int|
                        start <= k < start + no_pages ==> {
                            let e = #[trigger] final(self).leaf()[k];
                            &&& spec_entry_present(e)
                            &&& spec_entry_flags(e) == spec_leaf_flags(old(self).user())
                            &&& exists|idx: int|
                                0 <= idx < old(frames).total() && !old(frames).bits()[idx]
                                    && final(frames).bits()[idx] && spec_frame_addr(
                                    old(frames).mm(),
                                    idx,
                                ) == spec_entry_addr(e)
                        }
                    &&& forall|k1: int, k2: int|
                        start <= k1 < k2 < start + no_pages ==> spec_entry_addr(
                            #[trigger] final(self).leaf()[k1],
                        ) != spec_entry_addr(#[trigger] final(self).leaf()[k2])
                    &&& forall|idx: int|
                        0 <= idx < old(frames).total() && old(frames).bits()[idx]
                            ==> #[trigger] final(frames).bits()[idx]
                    &&& spec_count_set(final(frames).bits()) == spec_count_set(
                        old(frames).bits(),
                    ) + no_pages
                },
            },
    {
        proof {
            frames.lemma_wf_views();
            crate::paging::lemma_leaf_flags();
        }
        let ghost leaf0 = self.leaf();
        let ghost bits_begin = frames.bits();
        let ghost mmg = frames.mm();
        let ghost totalg = frames.total();
        let ghost n = no_pages as int;
        if no_pages > 512 {
            proof {
                assert(spec_first_run(leaf0, n, 0) == 512);
            }
            return None;
        }
        // Find the first run of enough consecutive free leaf entries.
        let start = find_first_run(&self.leaf_table, no_pages);
        if start >= 512 {
            // no contiguous run of the requested size exists in this
            // space's reserved slice
            return None;
        }
        let flags: u64 = if self.is_user {
            PRESENT | WRITABLE | HUGE_PAGE | USER_ACCESSIBLE
        } else {
            PRESENT | WRITABLE | HUGE_PAGE
        };
        proof {
            assert(flags == spec_leaf_flags(self.is_user));
            assert(flags < 0x1000);
            assert(flags & 1 == 1);
        }
        let mut got: Vec<Frame> = Vec::new();
        let ghost mut done: Seq<int> = Seq::empty();
        let mut j: usize = 0;
        while j < no_pages
            invariant
                1 <= no_pages <= 512,
                n == no_pages as int,
                j <= no_pages,
                start + no_pages <= 512,
                // context carried into the loop
                old(self).wf(),
                old(frames).wf(),
                old(self).backed_by(old(frames)),
                leaf0.len() == 512,
                start < 512,
                start as int == spec_first_run(leaf0, n, 0),
                // unchanged pieces of self
                self.wf(),
                self.leaf_table.wf(),
                self.pml4_base == old(self).pml4_base,
                self.current_page_indexes == old(self).current_page_indexes,
                self.physical_memory_offset == old(self).physical_memory_offset,
                self.is_user == old(self).is_user,
                self.pml4_table == old(self).pml4_table,
                self.p3_table == old(self).p3_table,
                self.owned_tables == old(self).owned_tables,
                leaf0 == old(self).leaf(),
                // frames bookkeeping
                frames.wf(),
                frames.mm() == mmg,
                frames.total() == totalg,
                mmg == old(frames).mm(),
                totalg == old(frames).total(),
                bits_begin == old(frames).bits(),
                bits_begin.len() == totalg,
                flags == spec_leaf_flags(self.is_user),
                flags < 0x1000,
                flags & 1 == 1,
                got.len() == j,
                done.len() == j as int,
                forall|t: int|
                    0 <= t < j ==> 0 <= #[trigger] done[t] < totalg && !bits_begin[done[t]],
                forall|t1: int, t2: int| 0 <= t1 < t2 < j ==> done[t1] != done[t2],
                forall|t: int|
                    0 <= t < j ==> #[trigger] got@[t].start_address@ == spec_frame_addr(
                        mmg,
                        done[t],
                    ),
                frames.bits() == spec_set_many(bits_begin, done),
                spec_count_set(frames.bits()) == spec_count_set(bits_begin) + j,
                // leaf bookkeeping
                forall|k: int|
                    0 <= k < 512 && !(start <= k < start + j) ==> #[trigger] self.leaf()[k]
                        == leaf0[k],
                forall|t: int|
                    0 <= t < j ==> #[trigger] self.leaf()[start + t] == (spec_frame_addr(
                        mmg,
                        done[t],
                    ) as u64 | flags),
                forall|t: int|
                    0 <= t < j ==> spec_entry_addr(#[trigger] self.leaf()[start + t])
                        == spec_frame_addr(mmg, done[t]),
                spec_run_free(leaf0, start as int, n),
            decreases no_pages - j,
        {
            let ghost bits_before = frames.bits();
            match frames.alloc_next() {
                None => {
                    // Frame exhaustion: unmap every page this call has
                    // already mapped and free its frame, then fail.
                    proof {
                        frames.lemma_wf_views();
                        lemma_first_unset_full(bits_before);
                        lemma_count_set_of_full(bits_before);
                        assert(spec_count_set(bits_begin) + no_pages > totalg);
                        assert(done.subrange(0, j as int) =~= done);
                    }
                    let mut t = j;
                    while t > 0
                        invariant
                            t <= j,
                            j <= no_pages,
                            no_pages <= 512,
                            start + no_pages <= 512,
                            old(self).wf(),
                            old(frames).wf(),
                            old(self).backed_by(old(frames)),
                            leaf0.len() == 512,
                            self.wf(),
                            self.leaf_table.wf(),
                            self.pml4_base == old(self).pml4_base,
                            self.current_page_indexes == old(self).current_page_indexes,
                            self.physical_memory_offset == old(self).physical_memory_offset,
                            self.is_user == old(self).is_user,
                            self.pml4_table == old(self).pml4_table,
                            self.p3_table == old(self).p3_table,
                            self.owned_tables == old(self).owned_tables,
                            leaf0 == old(self).leaf(),
                            frames.wf(),
                            frames.mm() == mmg,
                            frames.total() == totalg,
                            mmg == old(frames).mm(),
                            totalg == old(frames).total(),
                            bits_begin == old(frames).bits(),
                            bits_begin.len() == totalg,
                            got.len() == j,
                            done.len() == j as int,
                            forall|u: int|
                                0 <= u < j ==> 0 <= #[trigger] done[u] < totalg
                                    && !bits_begin[done[u]],
                            forall|u1: int, u2: int|
                                0 <= u1 < u2 < j ==> done[u1] != done[u2],
                            forall|u: int|
                                0 <= u < j ==> #[trigger] got@[u].start_address@
                                    == spec_frame_addr(mmg, done[u]),
                            frames.bits() == spec_set_many(
                                bits_begin,
                                done.subrange(0, t as int),
                            ),
                            forall|k: int|
                                0 <= k < 512 && !(start <= k < start + t)
                                    ==> #[trigger] self.leaf()[k] == leaf0[k],
                            spec_run_free(leaf0, start as int, n),
                            n == no_pages as int,
                        decreases t,
                    {
                        t -= 1;
                        let mut cleared = self.leaf_table.entries[start + t];
                        cleared.set_unused();
                        let ghost leaf_pre = self.leaf();
                        self.leaf_table.entries.set(start + t, cleared);
                        proof {
                            assert(self.leaf() =~= leaf_pre.update(start + t, 0u64));
                            assert(leaf0[start + t] == 0);
                        }
                        let f = got[t];
                        proof {
                            assert(0 <= done[t as int] < totalg && spec_frame_addr(
                                mmg,
                                done[t as int],
                            ) == f.start_address@);
                        }
                        frames.free(f);
                        proof {
                            frames.lemma_wf_views();
                            let sub1 = done.subrange(0, t + 1);
                            let sub0 = done.subrange(0, t as int);
                            assert(forall|u: int|
                                0 <= u < sub0.len() ==> 0 <= #[trigger] sub0[u] < totalg);
                            assert(forall|u: int|
                                0 <= u < sub1.len() ==> 0 <= #[trigger] sub1[u] < totalg);
                            assert(sub1.drop_last() =~= sub0);
                            assert(sub1.last() == done[t as int]);
                            assert(frames.bits() == spec_set_many(bits_begin, sub1).update(
                                done[t as int],
                                false,
                            ));
                            lemma_set_many_len(bits_begin, sub0);
                            let freed = done[t as int];
                            assert forall|u: int| 0 <= u < sub0.len() implies sub0[u]
                                != freed by {}
                            lemma_set_many_other(bits_begin, sub0, freed);
                            assert(spec_set_many(bits_begin, sub1) == spec_set_many(
                                bits_begin,
                                sub0,
                            ).update(freed, true));
                            assert forall|k2: int| 0 <= k2 < totalg implies frames.bits()[k2]
                                == spec_set_many(bits_begin, sub0)[k2] by {}
                            assert(frames.bits() =~= spec_set_many(bits_begin, sub0));
                        }
                    }
                    proof {
                        assert(done.subrange(0, 0) =~= Seq::<int>::empty());
                        assert(spec_set_many(bits_begin, Seq::<int>::empty()) == bits_begin);
                        assert(frames.bits() == bits_begin);
                        assert(self.leaf() =~= leaf0);
                        lemma_backed_carries(*old(self), *old(frames), *self, *frames);
                    }
                    return None;
                },
                Some(f) => {
                    let ghost idx = spec_first_unset(bits_before, 0);
                    proof {
                        frames.lemma_wf_views();
                        lemma_set_many_len(bits_begin, done);
                        lemma_count_set_update(bits_before, idx, true);
                        crate::frame_alloc::lemma_frame_addr_bounds(mmg, idx);
                        assert forall|t: int| 0 <= t < j implies done[t] != idx by {
                            lemma_set_many_member(bits_begin, done, t);
                        }
                        lemma_set_many_other(bits_begin, done, idx);
                        assert(!bits_begin[idx]);
                        lemma_entry_roundtrip(f.start_address@, flags);
                    }
                    let mut e = PageTableEntry::new();
                    e.set_addr(f.start_address.as_u64(), flags);
                    let ghost leaf_pre = self.leaf();
                    self.leaf_table.entries.set(start + j, e);
                    got.push(f);
                    proof {
                        assert(self.leaf() =~= leaf_pre.update(start + j, f.start_address@
                            | flags));
                        let done2 = done.push(idx);
                        assert(done2.drop_last() =~= done);
                        assert(done2.last() == idx);
                        assert(spec_set_many(bits_begin, done2) == spec_set_many(
                            bits_begin,
                            done,
                        ).update(idx, true));
                        assert(frames.bits() == spec_set_many(bits_begin, done2));
                        done = done2;
                        assert forall|i: int| 0 <= i < 512 implies #[trigger] self.leaf()[i] == 0
                            || (spec_entry_present(self.leaf()[i]) && spec_is_aligned(
                            spec_entry_addr(self.leaf()[i]) as int,
                            PAGE_SIZE as int,
                        )) by {
                            if i != start + j {
                                assert(self.leaf()[i] == leaf_pre[i]);
                            }
                        }
                    }
                    j += 1;
                },
            }
        }
        let vaddr = VirtAddr::from_table_indexes(
            self.current_page_indexes.0,
            self.current_page_indexes.1,
            start,
        );
        proof {
            lemma_count_set_le(frames.bits());
            frames.lemma_wf_views();
            assert forall|k1: int, k2: int|
                start <= k1 < k2 < start + no_pages implies spec_entry_addr(
                #[trigger] self.leaf()[k1],
            ) != spec_entry_addr(#[trigger] self.leaf()[k2]) by {
                let t1 = k1 - start;
                let t2 = k2 - start;
                assert(self.leaf()[start + t1] == self.leaf()[k1]);
                assert(self.leaf()[start + t2] == self.leaf()[k2]);
                lemma_frame_exclusivity(mmg, done[t1], done[t2]);
            }
            assert forall|k: int|
                start <= k < start + no_pages implies {
                let e = #[trigger] self.leaf()[k];
                &&& spec_entry_present(e)
                &&& spec_entry_flags(e) == spec_leaf_flags(old(self).user())
                &&& exists|idx: int|
                    0 <= idx < old(frames).total() && !old(frames).bits()[idx]
                        && frames.bits()[idx] && spec_frame_addr(old(frames).mm(), idx)
                        == spec_entry_addr(e)
            } by {
                let t = k - start;
                assert(self.leaf()[start + t] == self.leaf()[k]);
                let i0 = done[t];
                crate::frame_alloc::lemma_frame_addr_bounds(mmg, i0);
                lemma_entry_roundtrip(spec_frame_addr(mmg, i0) as u64, flags);
                assert(frames.bits()[i0]) by {
                    lemma_set_many_member(bits_begin, done, t);
                }
                assert(0 <= i0 < old(frames).total() && !old(frames).bits()[i0]
                    && frames.bits()[i0] && spec_frame_addr(old(frames).mm(), i0)
                    == spec_entry_addr(self.leaf()[k]));
            }
            assert(self.backed_by(frames)) by {
                assert forall|i: int| 0 <= i < 512 && #[trigger] self.leaf()[i] != 0
                    implies spec_frame_tracked(frames, spec_entry_addr(self.leaf()[i]) as int)
                    by {
                    if start <= i < start + no_pages {
                        let t = i - start;
                        let i0 = done[t];
                        assert(self.leaf()[start + t] == self.leaf()[i]);
                        crate::frame_alloc::lemma_frame_addr_bounds(mmg, i0);
                        lemma_tracked_intro(frames, i0);
                        assert(spec_frame_addr(frames.mm(), i0) == spec_entry_addr(
                            self.leaf()[i],
                        ));
                    } else {
                        assert(self.leaf()[i] == old(self).leaf()[i]);
                        assert(old(self).leaf()[i] != 0);
                        lemma_tracked_carries(
                            old(frames),
                            frames,
                            spec_entry_addr(old(self).leaf()[i]) as int,
                        );
                    }
                }
                assert forall|u: int| 0 <= u < self.owned().len() implies spec_frame_tracked(
                    frames,
                    #[trigger] self.owned()[u].start_address@ as int,
                ) by {
                    assert(self.owned()[u] == old(self).owned()[u]);
                    lemma_tracked_carries(
                        old(frames),
                        frames,
                        old(self).owned()[u].start_address@ as int,
                    );
                }
            }
            let startg = spec_first_run(leaf0, n, 0);
            assert(startg == start as int);
            assert(startg + no_pages <= 512);
            assert(vaddr@ == spec_from_table_indexes(old(self).p4(), old(self).p3(), startg));
            assert(forall|k: int|
                0 <= k < 512 && !(startg <= k < startg + no_pages) ==> #[trigger] self.leaf()[k]
                    == old(self).leaf()[k]);
            assert forall|k1: int, k2: int|
                startg <= k1 < k2 < startg + no_pages implies spec_entry_addr(
                #[trigger] self.leaf()[k1],
            ) != spec_entry_addr(#[trigger] self.leaf()[k2]) by {}
            assert forall|idx: int|
                0 <= idx < old(frames).total() && old(frames).bits()[idx]
                    implies #[trigger] frames.bits()[idx] by {
                if exists|t: int| 0 <= t < done.len() && done[t] == idx {
                    let t = choose|t: int| 0 <= t < done.len() && done[t] == idx;
                    lemma_set_many_member(bits_begin, done, t);
                } else {
                    assert(forall|t: int| 0 <= t < done.len() ==> done[t] != idx);
                    lemma_set_many_other(bits_begin, done, idx);
                }
            }
            assert(spec_count_set(frames.bits()) == spec_count_set(old(frames).bits())
                + no_pages);
            assert forall|k: int|
                startg <= k < startg + no_pages implies {
                let e = #[trigger] self.leaf()[k];
                &&& spec_entry_present(e)
                &&& spec_entry_flags(e) == spec_leaf_flags(old(self).user())
                &&& exists|idx: int|
                    0 <= idx < old(frames).total() && !old(frames).bits()[idx]
                        && frames.bits()[idx] && spec_frame_addr(old(frames).mm(), idx)
                        == spec_entry_addr(e)
            } by {}
        }
        Some(Page { start_address: vaddr })
    }

    /// Walks this address space's slice of the table hierarchy for the
    /// given virtual address and returns the physical address it maps
    /// to, or nothing when the address lies outside the reserved slice
    /// or its leaf entry is unused.
    pub fn translate_address(&self, addr: VirtAddr) -> (r: Option<PhysAddr>)
        requires
            self.wf(),
        ensures
            match r {
                Some(p) => spec_p4_index(addr@) == self.p4() && spec_p3_index(addr@) == self.p3()
                    && spec_entry_present(self.leaf()[spec_p2_index(addr@)]) && p@
                    == spec_entry_addr(self.leaf()[spec_p2_index(addr@)]) + spec_page_offset(
                    addr@,
                ),
                None => spec_p4_index(addr@) != self.p4() || spec_p3_index(addr@) != self.p3()
                    || !spec_entry_present(self.leaf()[spec_p2_index(addr@)]),
            },
    {
        if addr.p4_index() != self.current_page_indexes.0 || addr.p3_index()
            != self.current_page_indexes.1 {
            return None;
        }
        let p2 = addr.p2_index();
        let entry = self.leaf_table.entry_at(p2);
        if !entry.is_present() {
            return None;
        }
        let base = entry.addr();
        proof {
            let e = self.leaf()[p2 as int];
            assert(e != 0) by {
                let raw = e;
                assert(raw & 1 == 1 ==> raw != 0) by (bit_vector);
            }
            assert(spec_is_aligned(spec_entry_addr(e) as int, PAGE_SIZE as int));
            let a = spec_entry_addr(e);
            let off: u64 = (addr@ % 0x200000) as u64;
            vstd::arithmetic::div_mod::lemma_mod_bound(addr@ as int, 0x200000);
            assert(a + off < 0x0010000000000000) by (bit_vector)
                requires
                    a == e & 0x000f_ffff_ffff_f000,
                    a % 0x200000 == 0,
                    off < 0x200000,
            ;
        }
        Some(PhysAddr::new(base.as_u64() + addr.page_offset()))
    }

    /// Frees the page starting at the given address: clears its leaf
    /// entry and returns the backing frame to the frame allocator.
    /// Addresses outside this space's reserved slice, and addresses
    /// whose leaf entry is unused, are left alone: entries of other
    /// slices belong to other address spaces or to the shared kernel
    /// tables.
    pub fn free_vaddr(&mut self, frames: &mut PageFrameAllocator, addr: VirtAddr)
        requires
            old(self).wf(),
            old(frames).wf(),
            old(self).backed_by(old(frames)),
        ensures
            final(self).wf(),
            final(frames).wf(),
            final(self).backed_by(final(frames)),
            final(frames).mm() == old(frames).mm(),
            final(frames).total() == old(frames).total(),
            final(self).p4() == old(self).p4(),
            final(self).p3() == old(self).p3(),
            final(self).user() == old(self).user(),
            final(self).root() == old(self).root(),
            final(self).offset() == old(self).offset(),
            final(self).owned() == old(self).owned(),
            final(self).pml4_entries() == old(self).pml4_entries(),
            final(self).p3_entries() == old(self).p3_entries(),
            ({
                let hit = spec_p4_index(addr@) == old(self).p4() && spec_p3_index(addr@) == old(
                    self,
                ).p3() && spec_entry_present(old(self).leaf()[spec_p2_index(addr@)]);
                if hit {
                    let p2 = spec_p2_index(addr@);
                    &&& final(self).leaf() == old(self).leaf().update(p2, 0u64)
                    &&& forall|idx: int|
                        0 <= idx < old(frames).total() && spec_frame_addr(old(frames).mm(), idx)
                            == spec_entry_addr(old(self).leaf()[p2]) ==> final(frames).bits()
                            == old(frames).bits().update(idx, false)
                } else {
                    &&& final(self).leaf() == old(self).leaf()
                    &&& final(frames).bits() == old(frames).bits()
                }
            }),
    {
        if addr.p4_index() != self.current_page_indexes.0 || addr.p3_index()
            != self.current_page_indexes.1 {
            return ;
        }
        let p2 = addr.p2_index();
        let entry = self.leaf_table.entry_at(p2);
        if entry.is_present() {
            proof {
                let e = old(self).leaf()[p2 as int];
                assert(e != 0) by {
                    let raw = e;
                    assert(raw & 1 == 1 ==> raw != 0) by (bit_vector);
                }
                assert(spec_is_aligned(spec_entry_addr(e) as int, PAGE_SIZE as int));
            }
            let frame = match Frame::from_start_address(entry.addr()) {
                Some(f) => f,
                None => {
                    return unreached();
                },
            };
            frames.free(frame);
            let mut cleared = self.leaf_table.entries[p2];
            cleared.set_unused();
            self.leaf_table.entries.set(p2, cleared);
            proof {
                assert(self.leaf() =~= old(self).leaf().update(p2 as int, 0u64));
                lemma_backed_carries(*old(self), *old(frames), *self, *frames);
            }
        }
    }
}

/// Utility wrapping `translate_address` for the given address space.
pub fn translate_virtual_address(space: &PageAllocator, addr: VirtAddr) -> (r: Option<PhysAddr>)
    requires
        space.wf(),
    ensures
        match r {
            Some(p) => spec_p4_index(addr@) == space.p4() && spec_p3_index(addr@) == space.p3()
                && spec_entry_present(space.leaf()[spec_p2_index(addr@)]) && p@ == spec_entry_addr(
                space.leaf()[spec_p2_index(addr@)],
            ) + spec_page_offset(addr@),
            None => spec_p4_index(addr@) != space.p4() || spec_p3_index(addr@) != space.p3()
                || !spec_entry_present(space.leaf()[spec_p2_index(addr@)]),
        },
{
    space.translate_address(addr)
}

} // verus!
