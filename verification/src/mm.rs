//! The bump-style kernel heap allocator: it serves allocation requests
//! from a fixed arena of kernel pages, only ever advancing a cursor,
//! and reclaims the whole arena at once when the last live allocation
//! is returned.

use vstd::prelude::*;
use vstd::arithmetic::power2::is_pow2;
use vstd::arithmetic::div_mod::lemma_mod_bound;
use crate::addressing::spec_from_table_indexes;
use crate::align::{lemma_pow2_positive, spec_align_up};
use crate::frame_alloc::{spec_count_set, PageFrameAllocator};
use crate::page_alloc::{lemma_first_run_bounds, spec_first_run, AllocError, PageAllocator};
use crate::paging::PAGE_SIZE;

verus! {

/// The kernel heap: a bump allocator over a fixed run of kernel pages.
pub struct BumpAllocator {
    /// The address space the arena pages were taken from.
    pub page_allocator: Option<PageAllocator>,
    heap_start: u64,
    heap_end: u64,
    next: u64,
    count: u64,
}

impl BumpAllocator {
    /// First byte of the arena.
    pub closed spec fn start(&self) -> u64 {
        self.heap_start
    }

    /// Last byte of the arena.
    pub closed spec fn end(&self) -> u64 {
        self.heap_end
    }

    /// Current bump cursor: the next candidate address.
    pub closed spec fn cursor(&self) -> u64 {
        self.next
    }

    /// Number of live (allocated and not yet freed) allocations.
    pub closed spec fn live(&self) -> u64 {
        self.count
    }

    /// The address space the arena pages were taken from, if any.
    pub closed spec fn space(&self) -> Option<PageAllocator> {
        self.page_allocator
    }

    /// The cursor stays inside the arena, and a fully drained heap has
    /// its cursor back at the start.
    pub closed spec fn wf(&self) -> bool {
        &&& self.heap_start <= self.next
        &&& self.next <= self.heap_end + 1
        &&& self.count == 0 ==> self.next == self.heap_start
    }

    /// The bump cursor of a well-formed heap never lies below the
    /// arena start nor more than one byte past its end, so every
    /// address the heap hands out lies inside the arena.
    pub proof fn lemma_wf_bounds(&self)
        ensures
            self.wf() ==> self.start() <= self.cursor() <= self.end() + 1,
    {
    }

    /// Creates a heap that owns no memory yet.
    pub fn new() -> (r: Self)
        ensures
            r.wf(),
            r.live() == 0,
            r.start() == 0,
            r.end() == 0,
            r.cursor() == 0,
    {
        BumpAllocator {
            page_allocator: None,
            heap_start: 0,
            heap_end: 0,
            next: 0,
            count: 0,
        }
    }

    /// Initializes the heap to a size of `no_pages` pages: requests one
    /// contiguous run of kernel pages from the address space and makes
    /// it the arena.  Fails, changing nothing, when the pages cannot be
    /// had.
    pub fn init(
        &mut self,
        allocator: PageAllocator,
        frames: &mut PageFrameAllocator,
        no_pages: usize,
    ) -> (r: Result<(), AllocError>)
        requires
            old(self).wf(),
            allocator.wf(),
            allocator.backed_by(old(frames)),
            old(frames).wf(),
            1 <= no_pages,
        ensures
            final(self).wf(),
            final(frames).wf(),
            final(frames).mm() == old(frames).mm(),
            final(frames).total() == old(frames).total(),
            r is Ok <==> (spec_first_run(allocator.leaf(), no_pages as int, 0) < 512
                && spec_count_set(old(frames).bits()) + no_pages <= old(frames).total()),
            match r {
                Ok(_) => {
                    &&& final(self).live() == old(self).live()
                    &&& final(self).cursor() == final(self).start()
                    &&& final(self).start() == spec_from_table_indexes(
                        allocator.p4(),
                        allocator.p3(),
                        spec_first_run(allocator.leaf(), no_pages as int, 0),
                    )
                    &&& final(self).end() + 1 == final(self).start() + no_pages * PAGE_SIZE
                    &&& final(self).space() matches Some(s) && s.wf() && s.p4() == allocator.p4()
                        && s.p3() == allocator.p3() && s.root() == allocator.root() && s.offset()
                        == allocator.offset() && s.user() == allocator.user() && s.backed_by(
                        final(frames),
                    )
                    &&& spec_count_set(final(frames).bits()) == spec_count_set(
                        old(frames).bits(),
                    ) + no_pages
                },
                Err(_) => *final(self) == *old(self) && final(frames).bits() == old(
                    frames,
                ).bits(),
            },
    {
        let mut pa = allocator;
        let page = match pa.alloc_next_page(frames, no_pages) {
            Some(p) => p,
            None => {
                return Err(AllocError::OutOfFrames);
            },
        };
        let start = page.start_address.as_u64();
        proof {
            pa.lemma_wf_bounds();
            lemma_first_run_bounds(allocator.leaf(), no_pages as int, 0);
            crate::addressing::lemma_from_table_indexes_bound(
                pa.p4(),
                pa.p3(),
                spec_first_run(allocator.leaf(), no_pages as int, 0),
                no_pages as int,
            );
        }
        self.page_allocator = Some(pa);
        self.heap_start = start;
        self.heap_end = start + (no_pages as u64 * PAGE_SIZE - 1);
        self.next = start;
        Ok(())
    }

    /// Serves one allocation: rounds the cursor up to the requested
    /// alignment and advances it past the requested size.  Returns the
    /// aligned address, or nothing (leaving the cursor untouched) when
    /// the arena has too little room left.
    pub fn allocate(&mut self, size: u64, align: u64) -> (r: Option<u64>)
        requires
            old(self).wf(),
            is_pow2(align as int),
            old(self).live() < u64::MAX,
        ensures
            final(self).wf(),
            final(self).start() == old(self).start(),
            final(self).end() == old(self).end(),
            final(self).space() == old(self).space(),
            r is Some <==> spec_align_up(old(self).cursor() as int, align as int) + size <= old(
                self,
            ).end(),
            match r {
                Some(addr) => {
                    &&& addr == spec_align_up(old(self).cursor() as int, align as int)
                    &&& final(self).cursor() == addr + size
                    &&& final(self).live() == old(self).live() + 1
                },
                None => *final(self) == *old(self),
            },
    {
        proof {
            lemma_pow2_positive(align as int);
            lemma_mod_bound(self.next as int, align as int);
        }
        let rem = self.next % align;
        let alloc_start = if rem == 0 {
            self.next
        } else {
            let pad = align - rem;
            if self.next > u64::MAX - pad {
                // the aligned start does not even fit in an address
                return None;
            }
            self.next + pad
        };
        let alloc_end = match alloc_start.checked_add(size) {
            Some(end) => end,
            None => {
                return None;
            },
        };
        if alloc_end > self.heap_end {
            // out of memory
            None
        } else {
            self.next = alloc_end;
            self.count = self.count + 1;
            Some(alloc_start)
        }
    }

    /// Returns one allocation.  Only the live count is tracked: when it
    /// reaches zero the whole arena is reclaimed by resetting the bump
    /// cursor to the heap start.
    pub fn dealloc(&mut self)
        requires
            old(self).wf(),
            old(self).live() >= 1,
        ensures
            final(self).wf(),
            final(self).start() == old(self).start(),
            final(self).end() == old(self).end(),
            final(self).space() == old(self).space(),
            final(self).live() == old(self).live() - 1,
            final(self).cursor() == if old(self).live() == 1 {
                final(self).start()
            } else {
                old(self).cursor()
            },
    {
        self.count = self.count - 1;
        if self.count == 0 {
            self.next = self.heap_start;
        }
    }
}

/// Law: once as many deallocations as allocations have happened the
/// live count is zero again, and a drained heap always has its bump
/// cursor back at the heap start; so any sequence of allocations
/// followed by the same number of deallocations, in any order, returns
/// the cursor to the start of the arena.
pub proof fn lemma_bump_reset(h: &BumpAllocator)
    requires
        h.wf(),
        h.live() == 0,
    ensures
        h.cursor() == h.start(),
{
}

} // verus!
