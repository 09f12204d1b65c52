//! The physical frame allocator: a bitmap over the frames that the boot
//! memory map makes available, with the frame-to-address arithmetic
//! that replays the map to resolve a frame index.

use vstd::prelude::*;
use vstd::arithmetic::div_mod::{
    lemma_fundamental_div_mod, lemma_fundamental_div_mod_converse_div,
    lemma_fundamental_div_mod_converse_mod, lemma_mod_bound, lemma_div_is_ordered,
};
use vstd::arithmetic::mul::{lemma_mul_inequality, lemma_mul_is_commutative};
use vstd::pervasive::unreached;
use vstd::arithmetic::power2::is_pow2;
use crate::addressing::{spec_phys_valid, PhysAddr, PHYS_ADDR_END};
use crate::align::{spec_align_down, spec_align_up, spec_is_aligned};
use crate::align::{align_down, align_up, lemma_pow2_positive};
use crate::multiboot::{MmapEntry, MMAP_AVAILABLE};
use crate::paging::{lemma_page_size_is_pow2, Frame, PAGE_SIZE};

verus! {

/// A memory-map entry takes part in frame accounting when it is marked
/// available and long enough to cover at least one frame.
pub open spec fn spec_entry_usable(e: MmapEntry) -> bool {
    e.typ == MMAP_AVAILABLE && e.len >= PAGE_SIZE
}

/// First frame-aligned address inside an entry's region.
pub open spec fn spec_entry_first(e: MmapEntry) -> int {
    spec_align_up(e.addr as int, PAGE_SIZE as int)
}

/// End of the last whole frame inside an entry's region.
pub open spec fn spec_entry_end(e: MmapEntry) -> int {
    spec_align_down(e.addr + e.len, PAGE_SIZE as int)
}

/// Number of whole frames an entry contributes.
pub open spec fn spec_entry_frames(e: MmapEntry) -> int {
    if spec_entry_usable(e) && spec_entry_end(e) > spec_entry_first(e) {
        (spec_entry_end(e) - spec_entry_first(e)) / PAGE_SIZE as int
    } else {
        0
    }
}

/// Total number of frames a memory map tracks, in map order.
pub open spec fn spec_total_frames(mm: Seq<MmapEntry>) -> int
    decreases mm.len(),
{
    if mm.len() == 0 {
        0
    } else {
        spec_entry_frames(mm[0]) + spec_total_frames(mm.drop_first())
    }
}

/// Physical address of the frame at a logical index, counting the
/// available regions in map order.
pub open spec fn spec_frame_addr(mm: Seq<MmapEntry>, i: int) -> int
    decreases mm.len(),
{
    if mm.len() == 0 {
        0
    } else if i < spec_entry_frames(mm[0]) {
        spec_entry_first(mm[0]) + i * PAGE_SIZE
    } else {
        spec_frame_addr(mm.drop_first(), i - spec_entry_frames(mm[0]))
    }
}

/// A well-formed memory map: every available region lies inside the
/// physical address space, and the frame ranges of available regions
/// are disjoint and given in increasing order.
pub open spec fn spec_map_wf(mm: Seq<MmapEntry>) -> bool {
    &&& forall|i: int|
        0 <= i < mm.len() && spec_entry_usable(#[trigger] mm[i])
            ==> mm[i].addr + mm[i].len <= PHYS_ADDR_END
    &&& forall|i: int, j: int|
        0 <= i < j < mm.len() && spec_entry_usable(#[trigger] mm[i])
            && spec_entry_usable(#[trigger] mm[j])
            ==> spec_entry_end(mm[i]) <= spec_entry_first(mm[j])
}

/// Number of set bits in a bitmap view.
pub open spec fn spec_count_set(s: Seq<bool>) -> int
    decreases s.len(),
{
    if s.len() == 0 {
        0
    } else {
        (if s[0] { 1int } else { 0int }) + spec_count_set(s.drop_first())
    }
}

/// Index of the first unset bit, or the length when every bit is set.
pub open spec fn spec_first_unset(s: Seq<bool>, from: int) -> int
    decreases s.len() - from,
{
    if from < 0 || from >= s.len() {
        s.len() as int
    } else if !s[from] {
        from
    } else {
        spec_first_unset(s, from + 1)
    }
}

/// Value of one bit in the packed bitmap, most significant bit first.
pub open spec fn spec_bit(bm: Seq<u8>, i: int) -> bool {
    (bm[i / 8] >> ((7 - i % 8) as u8)) & 1 == 1
}

/// Frame counts are never negative.
pub proof fn lemma_total_frames_nonneg(mm: Seq<MmapEntry>)
    ensures
        spec_total_frames(mm) >= 0,
    decreases mm.len(),
{
    if mm.len() > 0 {
        lemma_total_frames_nonneg(mm.drop_first());
    }
}

/// Appending an entry adds exactly its own frames to the total.
pub proof fn lemma_total_frames_push(mm: Seq<MmapEntry>, e: MmapEntry)
    ensures
        spec_total_frames(mm.push(e)) == spec_total_frames(mm) + spec_entry_frames(e),
    decreases mm.len(),
{
    if mm.len() == 0 {
        assert(mm.push(e)[0] == e);
        assert(mm.push(e).drop_first() =~= Seq::<MmapEntry>::empty());
        assert(spec_total_frames(mm.push(e)) == spec_entry_frames(mm.push(e)[0])
            + spec_total_frames(mm.push(e).drop_first()));
        assert(spec_total_frames(Seq::<MmapEntry>::empty()) == 0);
    } else {
        assert(mm.push(e)[0] == mm[0]);
        assert(mm.push(e).drop_first() =~= mm.drop_first().push(e));
        lemma_total_frames_push(mm.drop_first(), e);
        assert(spec_total_frames(mm.push(e)) == spec_entry_frames(mm.push(e)[0])
            + spec_total_frames(mm.push(e).drop_first()));
        assert(spec_total_frames(mm.push(e).drop_first())
            == spec_total_frames(mm.drop_first().push(e)));
        assert(spec_total_frames(mm) == spec_entry_frames(mm[0])
            + spec_total_frames(mm.drop_first()));
    }
}

/// A usable entry of a well-formed map has its frame range inside the
/// physical address space and aligned on both ends.
pub proof fn lemma_entry_range(e: MmapEntry)
    requires
        spec_entry_usable(e),
        e.addr + e.len <= PHYS_ADDR_END,
    ensures
        0 <= e.addr <= spec_entry_first(e),
        spec_entry_end(e) <= e.addr + e.len,
        spec_is_aligned(spec_entry_first(e), PAGE_SIZE as int),
        spec_is_aligned(spec_entry_end(e), PAGE_SIZE as int),
        spec_entry_frames(e) >= 0,
        spec_entry_first(e) + spec_entry_frames(e) * PAGE_SIZE
            <= spec_entry_end(e) || spec_entry_frames(e) == 0,
        spec_entry_frames(e) > 0 ==> spec_entry_first(e) + spec_entry_frames(e) * PAGE_SIZE
            == spec_entry_end(e),
{
    let p = PAGE_SIZE as int;
    let a = e.addr as int;
    let l = e.len as int;
    lemma_mod_bound(a, p);
    lemma_mod_bound(a + l, p);
    lemma_fundamental_div_mod(a, p);
    lemma_fundamental_div_mod(a + l, p);
    let first = spec_entry_first(e);
    let end = spec_entry_end(e);
    // both ends are multiples of the page size
    assert(first % p == 0) by {
        if a % p == 0 {
        } else {
            assert(first == (a - a % p) + p);
            lemma_aligned_offset(a, p);
        }
    }
    assert(end % p == 0) by {
        lemma_aligned_offset(a + l, p);
        assert(end == (a + l) - (a + l) % p);
    }
    if end > first {
        let cnt = (end - first) / p;
        assert((end - first) % p == 0) by {
            lemma_mod_diff_zero(first, end, p);
        }
        lemma_fundamental_div_mod(end - first, p);
        assert(end - first == p * cnt);
        lemma_mul_is_commutative(p, cnt);
    }
}

/// Dropping the first entry keeps a memory map well-formed.
pub proof fn lemma_map_wf_drop_first(mm: Seq<MmapEntry>)
    requires
        spec_map_wf(mm),
        mm.len() > 0,
    ensures
        spec_map_wf(mm.drop_first()),
{
    let rest = mm.drop_first();
    assert forall|i: int|
        0 <= i < rest.len() && spec_entry_usable(#[trigger] rest[i]) implies rest[i].addr
        + rest[i].len <= PHYS_ADDR_END by {
        assert(rest[i] == mm[i + 1]);
    }
    assert forall|i: int, j: int|
        0 <= i < j < rest.len() && spec_entry_usable(#[trigger] rest[i]) && spec_entry_usable(
            #[trigger] rest[j],
        ) implies spec_entry_end(rest[i]) <= spec_entry_first(rest[j]) by {
        assert(rest[i] == mm[i + 1]);
        assert(rest[j] == mm[j + 1]);
    }
}

/// Every tracked frame lies at or above any common lower bound of the
/// usable entries' first frame addresses.
proof fn lemma_frame_addr_lower(mm: Seq<MmapEntry>, k: int, x: int)
    requires
        0 <= k < spec_total_frames(mm),
        forall|i: int|
            0 <= i < mm.len() && spec_entry_usable(#[trigger] mm[i]) ==> x <= spec_entry_first(
                mm[i],
            ),
    ensures
        x <= spec_frame_addr(mm, k),
    decreases mm.len(),
{
    lemma_total_frames_nonneg(mm);
    if mm.len() > 0 {
        let c0 = spec_entry_frames(mm[0]);
        if k < c0 {
            assert(spec_entry_usable(mm[0]));
            assert(k * PAGE_SIZE >= 0) by (nonlinear_arith)
                requires
                    k >= 0,
            ;
        } else {
            let rest = mm.drop_first();
            assert forall|i: int|
                0 <= i < rest.len() && spec_entry_usable(#[trigger] rest[i]) implies x
                <= spec_entry_first(rest[i]) by {
                assert(rest[i] == mm[i + 1]);
            }
            lemma_frame_addr_lower(rest, k - c0, x);
        }
    }
}

/// Tracked frames are strictly increasing in index, a whole frame apart.
pub proof fn lemma_frame_addr_mono(mm: Seq<MmapEntry>, i: int, j: int)
    requires
        spec_map_wf(mm),
        0 <= i < j < spec_total_frames(mm),
    ensures
        spec_frame_addr(mm, i) + PAGE_SIZE <= spec_frame_addr(mm, j),
    decreases mm.len(),
{
    lemma_total_frames_nonneg(mm);
    if mm.len() > 0 {
        let e0 = mm[0];
        let c0 = spec_entry_frames(e0);
        let rest = mm.drop_first();
        lemma_total_frames_nonneg(rest);
        if j < c0 {
            // both frames are in the first entry
            assert((i + 1) * PAGE_SIZE <= j * PAGE_SIZE) by (nonlinear_arith)
                requires
                    i + 1 <= j,
            ;
            assert((i + 1) * PAGE_SIZE == i * PAGE_SIZE + PAGE_SIZE) by (nonlinear_arith);
        } else if i < c0 {
            // first frame in the first entry, second in a later one
            assert(spec_entry_usable(e0));
            lemma_entry_range(e0);
            assert(spec_frame_addr(mm, i) == spec_entry_first(e0) + i * PAGE_SIZE);
            assert((i + 1) * PAGE_SIZE <= c0 * PAGE_SIZE) by (nonlinear_arith)
                requires
                    i + 1 <= c0,
            ;
            assert((i + 1) * PAGE_SIZE == i * PAGE_SIZE + PAGE_SIZE) by (nonlinear_arith);
            assert(spec_entry_first(e0) + i * PAGE_SIZE + PAGE_SIZE <= spec_entry_end(e0));
            assert forall|t: int|
                0 <= t < rest.len() && spec_entry_usable(#[trigger] rest[t]) implies spec_entry_end(
                e0,
            ) <= spec_entry_first(rest[t]) by {
                assert(rest[t] == mm[t + 1]);
            }
            lemma_frame_addr_lower(rest, j - c0, spec_entry_end(e0));
        } else {
            lemma_map_wf_drop_first(mm);
            lemma_frame_addr_mono(rest, i - c0, j - c0);
        }
    }
}

/// Every tracked frame address is frame-aligned and lies, together with
/// the frame it starts, inside the physical address space.
pub proof fn lemma_frame_addr_bounds(mm: Seq<MmapEntry>, i: int)
    requires
        spec_map_wf(mm),
        0 <= i < spec_total_frames(mm),
    ensures
        0 <= spec_frame_addr(mm, i),
        spec_frame_addr(mm, i) + PAGE_SIZE <= PHYS_ADDR_END,
        spec_is_aligned(spec_frame_addr(mm, i), PAGE_SIZE as int),
    decreases mm.len(),
{
    lemma_total_frames_nonneg(mm);
    if mm.len() > 0 {
        let e0 = mm[0];
        let c0 = spec_entry_frames(e0);
        if i < c0 {
            assert(spec_entry_usable(e0));
            lemma_entry_range(e0);
            let p = PAGE_SIZE as int;
            let first = spec_entry_first(e0);
            assert(i * p >= 0) by (nonlinear_arith)
                requires
                    i >= 0,
                    p > 0,
            ;
            assert((i + 1) * p <= c0 * p) by (nonlinear_arith)
                requires
                    i + 1 <= c0,
                    p > 0,
            ;
            assert((i + 1) * p == i * p + p) by (nonlinear_arith);
            assert((first + i * p) % p == 0) by {
                lemma_fundamental_div_mod(first, p);
                vstd::arithmetic::div_mod::lemma_mod_multiples_basic(first / p + i, p);
                assert(p * (first / p) + i * p == (first / p + i) * p) by (nonlinear_arith);
                lemma_mul_is_commutative(first / p + i, p);
            }
        } else {
            lemma_map_wf_drop_first(mm);
            lemma_frame_addr_bounds(mm.drop_first(), i - c0);
        }
    }
}

/// Law: no two distinct frame indices ever resolve to the same physical
/// address, so live frames handed out by the allocator never alias.
pub proof fn lemma_frame_exclusivity(mm: Seq<MmapEntry>, i: int, j: int)
    requires
        spec_map_wf(mm),
        0 <= i < spec_total_frames(mm),
        0 <= j < spec_total_frames(mm),
        i != j,
    ensures
        spec_frame_addr(mm, i) != spec_frame_addr(mm, j),
{
    if i < j {
        lemma_frame_addr_mono(mm, i, j);
    } else {
        lemma_frame_addr_mono(mm, j, i);
    }
}

/// The number of set bits is between zero and the bitmap length.
pub proof fn lemma_count_set_le(s: Seq<bool>)
    ensures
        0 <= spec_count_set(s) <= s.len(),
    decreases s.len(),
{
    if s.len() > 0 {
        lemma_count_set_le(s.drop_first());
    }
}

/// Law: a bitmap with as many set bits as it has bits is entirely set,
/// so `total_pages` successful allocations exhaust the allocator.
pub proof fn lemma_count_set_full(s: Seq<bool>)
    requires
        spec_count_set(s) == s.len(),
    ensures
        forall|i: int| 0 <= i < s.len() ==> s[i],
    decreases s.len(),
{
    if s.len() > 0 {
        lemma_count_set_le(s.drop_first());
        assert(s[0]);
        lemma_count_set_full(s.drop_first());
        assert forall|i: int| 0 <= i < s.len() implies s[i] by {
            if i > 0 {
                assert(s.drop_first()[i - 1]);
            }
        }
    }
}

/// Updating one bit changes the set-bit count by exactly the change in
/// that bit's contribution.
pub proof fn lemma_count_set_update(s: Seq<bool>, i: int, b: bool)
    requires
        0 <= i < s.len(),
    ensures
        spec_count_set(s.update(i, b)) == spec_count_set(s) + (if b { 1int } else { 0int }) - (
        if s[i] { 1int } else { 0int }),
    decreases s.len(),
{
    let t = s.update(i, b);
    if i == 0 {
        assert(t.drop_first() =~= s.drop_first());
    } else {
        assert(t[0] == s[0]);
        assert(t.drop_first() =~= s.drop_first().update(i - 1, b));
        lemma_count_set_update(s.drop_first(), i - 1, b);
    }
}

/// Law: when as many frames are marked used as the allocator tracks —
/// as after exactly `total_pages` successful allocations with no
/// intervening frees — no bit is unset, which is precisely the
/// condition under which the next allocation returns nothing.
pub proof fn lemma_exhaustion(fa: &PageFrameAllocator)
    requires
        spec_count_set(fa.bits()) == fa.total(),
    ensures
        spec_first_unset(fa.bits(), 0) == fa.total(),
{
    fa.lemma_wf_views();
    lemma_count_set_full(fa.bits());
    lemma_first_unset_full(fa.bits());
}

/// Appending a bit adds exactly its own contribution to the count.
pub proof fn lemma_count_set_push(s: Seq<bool>, b: bool)
    ensures
        spec_count_set(s.push(b)) == spec_count_set(s) + (if b { 1int } else { 0int }),
    decreases s.len(),
{
    if s.len() == 0 {
        assert(s.push(b)[0] == b);
        assert(s.push(b).drop_first() =~= Seq::<bool>::empty());
        assert(spec_count_set(s.push(b)) == (if b { 1int } else { 0int }) + spec_count_set(
            Seq::<bool>::empty(),
        ));
    } else {
        assert(s.push(b)[0] == s[0]);
        assert(s.push(b).drop_first() =~= s.drop_first().push(b));
        lemma_count_set_push(s.drop_first(), b);
    }
}

/// A fully set bitmap has as many set bits as bits.
pub proof fn lemma_count_set_of_full(s: Seq<bool>)
    requires
        forall|i: int| 0 <= i < s.len() ==> s[i],
    ensures
        spec_count_set(s) == s.len(),
    decreases s.len(),
{
    if s.len() > 0 {
        assert(s[0]);
        assert(forall|i: int| 0 <= i < s.drop_first().len() ==> s.drop_first()[i] == s[i + 1]);
        lemma_count_set_of_full(s.drop_first());
    }
}

/// All bits below the first unset one are set.
pub proof fn lemma_first_unset_prefix(s: Seq<bool>, from: int, k: int)
    requires
        0 <= from <= k < spec_first_unset(s, from),
    ensures
        k < s.len() && s[k],
    decreases k - from,
{
    if from < k {
        lemma_first_unset_prefix(s, from + 1, k);
    }
}

/// The first unset index equals the length exactly when every bit is set.
pub proof fn lemma_first_unset_full(s: Seq<bool>)
    ensures
        (spec_first_unset(s, 0) == s.len()) <==> (forall|i: int| 0 <= i < s.len() ==> s[i]),
{
    lemma_first_unset_bounds(s, 0);
    if spec_first_unset(s, 0) == s.len() {
        assert forall|i: int| 0 <= i < s.len() implies s[i] by {
            lemma_first_unset_prefix(s, 0, i);
        }
    } else {
        let f = spec_first_unset(s, 0);
        lemma_first_unset_unset(s, 0);
    }
}

/// The first unset index is in range, and when it is below the length
/// the bit there is unset.
pub proof fn lemma_first_unset_bounds(s: Seq<bool>, from: int)
    requires
        0 <= from <= s.len(),
    ensures
        from <= spec_first_unset(s, from) <= s.len(),
    decreases s.len() - from,
{
    if from < s.len() && s[from] {
        lemma_first_unset_bounds(s, from + 1);
    }
}

/// When the first unset index is below the length, that bit is unset.
pub proof fn lemma_first_unset_unset(s: Seq<bool>, from: int)
    requires
        0 <= from <= s.len(),
        spec_first_unset(s, from) < s.len(),
    ensures
        !s[spec_first_unset(s, from)],
    decreases s.len() - from,
{
    if from < s.len() && s[from] {
        lemma_first_unset_unset(s, from + 1);
    }
}

/// The difference of two multiples of `p` is a multiple of `p`.
proof fn lemma_mod_diff_zero(x: int, y: int, p: int)
    requires
        p > 0,
        x % p == 0,
        y % p == 0,
    ensures
        (y - x) % p == 0,
{
    lemma_fundamental_div_mod(x, p);
    lemma_fundamental_div_mod(y, p);
    assert(y - x == p * (y / p) - p * (x / p));
    assert(p * (y / p) - p * (x / p) == p * (y / p - x / p)) by (nonlinear_arith);
    lemma_mul_is_commutative(p, y / p - x / p);
    vstd::arithmetic::div_mod::lemma_mod_multiples_basic(y / p - x / p, p);
}

/// `x - x % p` is a multiple of `p`.
proof fn lemma_aligned_offset(x: int, p: int)
    requires
        p > 0,
    ensures
        (x - x % p) % p == 0,
    decreases 0int,
{
    lemma_fundamental_div_mod(x, p);
    assert(x - x % p == p * (x / p));
    lemma_mul_is_commutative(p, x / p);
    vstd::arithmetic::div_mod::lemma_mod_multiples_basic(x / p, p);
}

/// The total frame count splits at any entry boundary.
proof fn lemma_total_frames_split(mm: Seq<MmapEntry>, k: int)
    requires
        0 <= k <= mm.len(),
    ensures
        spec_total_frames(mm) == spec_total_frames(mm.subrange(0, k)) + spec_total_frames(
            mm.subrange(k, mm.len() as int),
        ),
    decreases k,
{
    if k == 0 {
        assert(mm.subrange(0, 0) =~= Seq::<MmapEntry>::empty());
        assert(mm.subrange(0, mm.len() as int) =~= mm);
    } else {
        lemma_total_frames_split(mm, k - 1);
        assert(mm.subrange(0, k) =~= mm.subrange(0, k - 1).push(mm[k - 1]));
        lemma_total_frames_push(mm.subrange(0, k - 1), mm[k - 1]);
        let t1 = mm.subrange(k - 1, mm.len() as int);
        let t2 = mm.subrange(k, mm.len() as int);
        assert(t1[0] == mm[k - 1]);
        assert(t1.drop_first() =~= t2);
        assert(spec_total_frames(t1) == spec_entry_frames(mm[k - 1]) + spec_total_frames(t2));
    }
}

/// A positive common factor preserves strict order.
proof fn lemma_mul_strict_order_factor(a: int, b: int, p: int)
    by (nonlinear_arith)
    requires
        p > 0,
        p * a < p * b,
    ensures
        a < b,
{
}

/// An address that fails the membership test of a region does not equal
/// any frame address of that region.
proof fn lemma_entry_no_match(e: MmapEntry, off: int, addr: int)
    requires
        spec_entry_usable(e),
        e.addr + e.len <= PHYS_ADDR_END,
        0 <= off < spec_entry_frames(e),
        !(spec_entry_first(e) <= addr < spec_entry_end(e) && (addr - spec_entry_first(e))
            % PAGE_SIZE as int == 0),
    ensures
        spec_entry_first(e) + off * PAGE_SIZE != addr,
{
    lemma_entry_range(e);
    let p = PAGE_SIZE as int;
    let first = spec_entry_first(e);
    let cnt = spec_entry_frames(e);
    if first + off * p == addr {
        assert(off * p >= 0) by (nonlinear_arith)
            requires
                off >= 0,
                p > 0,
        ;
        assert((off + 1) * p <= cnt * p) by (nonlinear_arith)
            requires
                off + 1 <= cnt,
                p > 0,
        ;
        assert((off + 1) * p == off * p + p) by (nonlinear_arith);
        assert(first <= addr < spec_entry_end(e));
        assert((addr - first) % p == 0) by {
            assert(addr - first == off * p);
            lemma_mul_is_commutative(off, p);
            vstd::arithmetic::div_mod::lemma_mod_multiples_basic(off, p);
        }
        assert(false);
    }
}

/// Setting one bit of a byte changes exactly that bit.
proof fn lemma_u8_set_bit(b: u8, s: u8, j: u8)
    by (bit_vector)
    requires
        s < 8,
        j < 8,
    ensures
        ((b | (1u8 << s)) >> j) & 1 == if j == s {
            1u8
        } else {
            (b >> j) & 1
        },
{
}

/// Clearing one bit of a byte changes exactly that bit.
proof fn lemma_u8_clear_bit(b: u8, s: u8, j: u8)
    by (bit_vector)
    requires
        s < 8,
        j < 8,
    ensures
        ((b & !(1u8 << s)) >> j) & 1 == if j == s {
            0u8
        } else {
            (b >> j) & 1
        },
{
}

/// Every bit of a zero byte is unset.
proof fn lemma_u8_zero_bit(j: u8)
    by (bit_vector)
    requires
        j < 8,
    ensures
        (0u8 >> j) & 1 == 0u8,
{
}

/// The physical frame allocator: a bitmap with one bit per tracked
/// frame, and the memory map it replays to resolve frame addresses.
/// Bit `i` is set exactly when the frame at logical index `i` is
/// allocated.
pub struct PageFrameAllocator {
    bitmap: Vec<u8>,
    memory_map: Vec<MmapEntry>,
    total_pages: u64,
}

impl PageFrameAllocator {
    /// The memory map this allocator replays.
    pub closed spec fn mm(&self) -> Seq<MmapEntry> {
        self.memory_map@
    }

    /// Number of frames this allocator tracks.
    pub closed spec fn total(&self) -> int {
        self.total_pages as int
    }

    /// The allocation bitmap: one bit per tracked frame.
    pub closed spec fn bits(&self) -> Seq<bool> {
        Seq::new(self.total_pages as nat, |i: int| spec_bit(self.bitmap@, i))
    }

    /// Internal consistency: the map is well-formed, the page count
    /// matches it, and the packed bitmap covers every tracked frame.
    pub closed spec fn wf(&self) -> bool {
        &&& spec_map_wf(self.memory_map@)
        &&& self.total_pages as int == spec_total_frames(self.memory_map@)
        &&& self.bitmap@.len() == self.total_pages as int / 8 + 1
        &&& self.total_pages <= 0x80000000
    }

    /// Facts a well-formed allocator's views satisfy: the bitmap has one
    /// bit per tracked frame, the map is well-formed, and the frame
    /// count matches the map.
    pub proof fn lemma_wf_views(&self)
        ensures
            self.bits().len() == self.total(),
            self.wf() ==> spec_map_wf(self.mm()) && self.total() == spec_total_frames(self.mm())
                && self.total() <= 0x80000000,
    {
    }

    /// Creates an empty allocator that tracks no memory.
    pub fn new() -> (r: Self)
        ensures
            r.wf(),
            r.total() == 0,
            r.mm() == Seq::<MmapEntry>::empty(),
    {
        let mut bitmap: Vec<u8> = Vec::new();
        bitmap.push(0);
        let r = PageFrameAllocator { bitmap, memory_map: Vec::new(), total_pages: 0 };
        proof {
            assert(r.memory_map@ =~= Seq::<MmapEntry>::empty());
        }
        r
    }

    /// Length in bytes of the allocation bitmap.
    #[inline]
    pub fn get_bitmap_len(&self) -> (r: usize)
        requires
            self.wf(),
        ensures
            r == self.total() / 8 + 1,
    {
        ((self.total_pages / 8) + 1) as usize
    }

    /// Number of frames this allocator tracks.
    #[inline]
    pub fn total_page_count(&self) -> (r: u64)
        ensures
            r == self.total(),
    {
        self.total_pages
    }

    /// Number of frames that are currently free.
    pub fn free_frames(&self) -> (r: u64)
        requires
            self.wf(),
        ensures
            r == self.total() - spec_count_set(self.bits()),
    {
        let ghost s = self.bits();
        proof {
            lemma_count_set_le(s);
            assert(s.subrange(0, 0) =~= Seq::<bool>::empty());
        }
        let total = self.total_pages;
        let mut used: u64 = 0;
        let mut i: u64 = 0;
        while i < total
            invariant
                self.wf(),
                s == self.bits(),
                total == self.total_pages,
                i <= total,
                used as int == spec_count_set(s.subrange(0, i as int)),
                used <= i,
            decreases total - i,
        {
            proof {
                assert(s.subrange(0, i as int + 1) =~= s.subrange(0, i as int).push(s[i as int]));
                lemma_count_set_push(s.subrange(0, i as int), s[i as int]);
            }
            if self.is_bit_set(i) {
                used += 1;
            }
            i += 1;
        }
        proof {
            assert(s.subrange(0, total as int) =~= s);
        }
        total - used
    }

    /// Reads one bit of the allocation bitmap.
    fn is_bit_set(&self, index: u64) -> (r: bool)
        requires
            self.wf(),
            index < self.total_pages,
        ensures
            r == spec_bit(self.bitmap@, index as int),
    {
        proof {
            lemma_div_is_ordered(index as int, self.total_pages as int, 8);
        }
        let byte_index = (index / 8) as usize;
        let bit_index = (index % 8) as u8;
        proof {
            lemma_mod_bound(index as int, 8);
        }
        (self.bitmap[byte_index] >> (7 - bit_index)) & 1 == 1
    }

    /// Sets one bit of the allocation bitmap.
    fn set_bit(&mut self, index: u64)
        requires
            old(self).wf(),
            index as int / 8 < old(self).bitmap@.len(),
        ensures
            final(self).wf(),
            final(self).memory_map == old(self).memory_map,
            final(self).total_pages == old(self).total_pages,
            forall|k: int|
                0 <= k && k / 8 < final(self).bitmap@.len() ==> spec_bit(
                    final(self).bitmap@,
                    k,
                ) == (k == index || spec_bit(old(self).bitmap@, k)),
    {
        let byte_index = (index / 8) as usize;
        let bit_index = (index % 8) as u8;
        proof {
            lemma_mod_bound(index as int, 8);
        }
        if byte_index >= self.bitmap.len() {
            return unreached();
        }
        let b = self.bitmap[byte_index];
        self.bitmap.set(byte_index, b | (1u8 << (7 - bit_index)));
        proof {
            let bm0 = old(self).bitmap@;
            let bm1 = self.bitmap@;
            let s = (7 - bit_index) as u8;
            assert forall|k: int| 0 <= k && k / 8 < bm1.len() implies spec_bit(bm1, k) == (k
                == index || spec_bit(bm0, k)) by {
                lemma_mod_bound(k, 8);
                let j = (7 - k % 8) as u8;
                if k / 8 == byte_index {
                    lemma_u8_set_bit(b, s, j);
                    if k != index {
                        lemma_fundamental_div_mod(k, 8);
                        lemma_fundamental_div_mod(index as int, 8);
                        assert(k % 8 != index as int % 8);
                        assert(j != s);
                    }
                } else {
                    assert(bm1[k / 8] == bm0[k / 8]);
                }
            }
        }
    }

    /// Initializes the allocator from the boot memory map: counts the
    /// frames of the available regions, builds a zeroed bitmap over
    /// them, and pre-marks the two frames holding the kernel image.
    /// Rejects a map whose available regions overlap, run backwards, or
    /// leave the physical address space.
    pub fn initialize(memory_map: Vec<MmapEntry>) -> (r: Option<PageFrameAllocator>)
        ensures
            match r {
                Some(a) => {
                    &&& spec_map_wf(memory_map@)
                    &&& a.wf()
                    &&& a.mm() == memory_map@
                    &&& a.total() == spec_total_frames(memory_map@)
                    &&& forall|i: int| 0 <= i < a.total() ==> a.bits()[i] == (i == 0 || i == 1)
                },
                None => !spec_map_wf(memory_map@),
            },
    {
        proof {
            lemma_page_size_is_pow2();
        }
        let ghost mm = memory_map@;
        let mut total: u64 = 0;
        let mut prev_end: u64 = 0;
        let mut k: usize = 0;
        while k < memory_map.len()
            invariant
                is_pow2(PAGE_SIZE as int),
                memory_map@ == mm,
                k <= mm.len(),
                spec_map_wf(mm.subrange(0, k as int)),
                total as int == spec_total_frames(mm.subrange(0, k as int)),
                total as int * PAGE_SIZE <= prev_end,
                prev_end <= PHYS_ADDR_END,
                prev_end == 0 || exists|i: int|
                    0 <= i < k && spec_entry_usable(#[trigger] mm[i]) && spec_entry_end(mm[i])
                        == prev_end,
                forall|i: int|
                    0 <= i < k && spec_entry_usable(#[trigger] mm[i]) ==> spec_entry_end(mm[i])
                        <= prev_end,
                forall|i: int|
                    0 <= i < k && spec_entry_usable(#[trigger] mm[i]) ==> mm[i].addr + mm[i].len
                        <= PHYS_ADDR_END,
            decreases mm.len() - k,
        {
            let e = memory_map[k];
            proof {
                assert(mm.subrange(0, k + 1) =~= mm.subrange(0, k as int).push(mm[k as int]));
                lemma_total_frames_push(mm.subrange(0, k as int), mm[k as int]);
            }
            if e.typ == MMAP_AVAILABLE && e.len >= PAGE_SIZE {
                if e.len > PHYS_ADDR_END || e.addr > PHYS_ADDR_END - e.len {
                    // an available region must lie inside the physical
                    // address space
                    return None;
                }
                proof {
                    lemma_mod_bound(e.addr as int, PAGE_SIZE as int);
                }
                let first = align_up(e.addr, PAGE_SIZE);
                let end = align_down(e.addr + e.len, PAGE_SIZE);
                if first < prev_end {
                    // available regions must be disjoint and ordered
                    proof {
                        let i = choose|i: int|
                            0 <= i < k && spec_entry_usable(#[trigger] mm[i]) && spec_entry_end(
                                mm[i],
                            ) == prev_end;
                        assert(spec_entry_end(mm[i]) > spec_entry_first(mm[k as int]));
                        assert(!spec_map_wf(mm));
                    }
                    return None;
                }
                proof {
                    lemma_entry_range(e);
                }
                let cnt = if end > first {
                    (end - first) / PAGE_SIZE
                } else {
                    0
                };
                proof {
                    let p = PAGE_SIZE as int;
                    if end > first {
                        assert(cnt as int == spec_entry_frames(e));
                        assert(first as int + cnt as int * p == end as int);
                    } else {
                        assert(spec_entry_frames(e) == 0);
                    }
                    assert((total as int + cnt as int) * p == total as int * p + cnt as int * p)
                        by (nonlinear_arith);
                }
                total = total + cnt;
                if end > prev_end {
                    prev_end = end;
                }
                proof {
                    assert forall|i: int|
                        0 <= i < k + 1 && spec_entry_usable(#[trigger] mm[i])
                            implies spec_entry_end(mm[i]) <= prev_end by {}
                    assert(spec_map_wf(mm.subrange(0, k + 1))) by {
                        let s = mm.subrange(0, k + 1);
                        assert forall|i: int, j: int|
                            0 <= i < j < s.len() && spec_entry_usable(#[trigger] s[i])
                                && spec_entry_usable(#[trigger] s[j]) implies spec_entry_end(s[i])
                            <= spec_entry_first(s[j]) by {
                            assert(s[i] == mm[i]);
                            assert(s[j] == mm[j]);
                        }
                    }
                }
            } else {
                proof {
                    assert(spec_entry_frames(mm[k as int]) == 0);
                    assert(spec_map_wf(mm.subrange(0, k + 1))) by {
                        let s = mm.subrange(0, k + 1);
                        assert forall|i: int, j: int|
                            0 <= i < j < s.len() && spec_entry_usable(#[trigger] s[i])
                                && spec_entry_usable(#[trigger] s[j]) implies spec_entry_end(s[i])
                            <= spec_entry_first(s[j]) by {
                            assert(s[i] == mm[i]);
                            assert(s[j] == mm[j]);
                        }
                    }
                }
            }
            k += 1;
        }
        proof {
            assert(mm.subrange(0, mm.len() as int) =~= mm);
            assert(total <= 0x80000000) by {
                assert(total as int * PAGE_SIZE <= PHYS_ADDR_END);
                if total > 0x80000000 {
                    assert(total as int * PAGE_SIZE > 0x80000000 * PAGE_SIZE)
                        by (nonlinear_arith)
                        requires
                            total > 0x80000000,
                    ;
                }
            }
        }
        // one byte for every eight frames, and one spare byte so that
        // a partial final group still has room
        let bitmap_len = ((total / 8) + 1) as usize;
        let mut bitmap: Vec<u8> = Vec::new();
        let mut b: usize = 0;
        while b < bitmap_len
            invariant
                b == bitmap.len(),
                b <= bitmap_len,
                forall|i: int| 0 <= i < b ==> bitmap@[i] == 0u8,
            decreases bitmap_len - b,
        {
            bitmap.push(0);
            b += 1;
        }
        let mut allocator = PageFrameAllocator { bitmap, memory_map, total_pages: total };
        proof {
            assert(allocator.wf());
            assert forall|i: int| 0 <= i < allocator.total() implies !spec_bit(
                allocator.bitmap@,
                i,
            ) by {
                lemma_div_is_ordered(i, allocator.total() - 1, 8);
                lemma_div_is_ordered(allocator.total() - 1, allocator.total(), 8);
                lemma_mod_bound(i, 8);
                lemma_u8_zero_bit((7 - i % 8) as u8);
            }
        }
        // the first two frames back the kernel image and stay reserved
        allocator.set_bit(0);
        allocator.set_bit(1);
        Some(allocator)
    }

    /// Resolves a logical frame index back to a physical address by
    /// replaying the memory-map iteration.
    fn frame_address(&self, index: u64) -> (r: u64)
        requires
            self.wf(),
            index < self.total_pages,
        ensures
            r as int == spec_frame_addr(self.mm(), index as int),
    {
        proof {
            lemma_page_size_is_pow2();
            lemma_total_frames_nonneg(self.mm());
            assert(self.mm().subrange(0, 0) =~= Seq::<MmapEntry>::empty());
            assert(self.mm().subrange(0, self.mm().len() as int) =~= self.mm());
        }
        let ghost mm = self.mm();
        let mut remaining: u64 = index;
        let mut k: usize = 0;
        while k < self.memory_map.len()
            invariant
                is_pow2(PAGE_SIZE as int),
                self.wf(),
                mm == self.mm(),
                k <= mm.len(),
                remaining as int == index - spec_total_frames(mm.subrange(0, k as int)),
                spec_frame_addr(mm, index as int) == spec_frame_addr(
                    mm.subrange(k as int, mm.len() as int),
                    remaining as int,
                ),
                (remaining as int) < spec_total_frames(mm.subrange(k as int, mm.len() as int)),
            decreases mm.len() - k,
        {
            let e = self.memory_map[k];
            let ghost tail = mm.subrange(k as int, mm.len() as int);
            proof {
                assert(tail[0] == mm[k as int]);
                assert(tail.drop_first() =~= mm.subrange(k + 1, mm.len() as int));
                assert(mm.subrange(0, k + 1) =~= mm.subrange(0, k as int).push(mm[k as int]));
                lemma_total_frames_push(mm.subrange(0, k as int), mm[k as int]);
            }
            if e.typ == MMAP_AVAILABLE && e.len >= PAGE_SIZE {
                proof {
                    lemma_mod_bound(e.addr as int, PAGE_SIZE as int);
                    lemma_entry_range(e);
                }
                let first = align_up(e.addr, PAGE_SIZE);
                let end = align_down(e.addr + e.len, PAGE_SIZE);
                let cnt = if end > first {
                    (end - first) / PAGE_SIZE
                } else {
                    0
                };
                proof {
                    assert(cnt as int == spec_entry_frames(e));
                }
                if remaining < cnt {
                    proof {
                        let p = PAGE_SIZE as int;
                        assert((remaining as int + 1) * p <= cnt as int * p) by (nonlinear_arith)
                            requires
                                remaining as int + 1 <= cnt as int,
                                p > 0,
                        ;
                        assert((remaining as int + 1) * p == remaining as int * p + p)
                            by (nonlinear_arith);
                        assert(remaining as int * p >= 0) by (nonlinear_arith)
                            requires
                                remaining as int >= 0,
                                p > 0,
                        ;
                    }
                    return first + remaining * PAGE_SIZE;
                }
                remaining = remaining - cnt;
            } else {
                proof {
                    assert(spec_entry_frames(mm[k as int]) == 0);
                }
            }
            k += 1;
        }
        proof {
            assert(mm.subrange(mm.len() as int, mm.len() as int) =~= Seq::<MmapEntry>::empty());
            assert(false);
        }
        unreached()
    }

    /// Allocates the first free frame, marking it used in the bitmap.
    /// Returns nothing exactly when every tracked frame is allocated.
    pub fn alloc_next(&mut self) -> (r: Option<Frame>)
        requires
            old(self).wf(),
        ensures
            final(self).wf(),
            final(self).mm() == old(self).mm(),
            final(self).total() == old(self).total(),
            match r {
                None => {
                    &&& final(self).bits() == old(self).bits()
                    &&& spec_first_unset(old(self).bits(), 0) == old(self).total()
                },
                Some(f) => {
                    let idx = spec_first_unset(old(self).bits(), 0);
                    &&& 0 <= idx < old(self).total()
                    &&& !old(self).bits()[idx]
                    &&& final(self).bits() == old(self).bits().update(idx, true)
                    &&& f.start_address@ == spec_frame_addr(old(self).mm(), idx)
                    &&& spec_is_aligned(f.start_address@ as int, PAGE_SIZE as int)
                },
            },
    {
        let ghost s = self.bits();
        proof {
            lemma_first_unset_bounds(s, 0);
        }
        let total = self.total_pages;
        let mut i: u64 = 0;
        while i < total
            invariant
                self == old(self),
                s == self.bits(),
                total == self.total_pages,
                old(self).wf(),
                i <= total,
                spec_first_unset(s, 0) == spec_first_unset(s, i as int),
                i as int <= spec_first_unset(s, i as int),
            decreases total - i,
        {
            if !self.is_bit_set(i) {
                proof {
                    assert(!s[i as int]);
                    assert(spec_first_unset(s, i as int) == i as int);
                    lemma_frame_addr_bounds(self.mm(), i as int);
                }
                let addr = self.frame_address(i);
                proof {
                    lemma_div_is_ordered(i as int, self.total_pages as int, 8);
                }
                self.set_bit(i);
                proof {
                    assert forall|k: int| 0 <= k < total implies self.bits()[k] == s.update(
                        i as int,
                        true,
                    )[k] by {
                        lemma_div_is_ordered(k, total as int, 8);
                    }
                    assert(self.bits() =~= s.update(i as int, true));
                }
                return Some(Frame { start_address: PhysAddr::new(addr) });
            }
            proof {
                assert(s[i as int]);
                assert(spec_first_unset(s, i as int) == spec_first_unset(s, i as int + 1));
                lemma_first_unset_bounds(s, i as int + 1);
            }
            i += 1;
        }
        None
    }

    /// Frees the given frame: re-derives its logical index by scanning
    /// the flattened frame sequence and clears its bit.  The frame must
    /// be one the memory map tracks.
    pub fn free(&mut self, frame: Frame)
        requires
            old(self).wf(),
            exists|idx: int|
                0 <= idx < old(self).total() && spec_frame_addr(old(self).mm(), idx)
                    == frame.start_address@,
        ensures
            final(self).wf(),
            final(self).mm() == old(self).mm(),
            final(self).total() == old(self).total(),
            forall|idx: int|
                0 <= idx < old(self).total() && spec_frame_addr(old(self).mm(), idx)
                    == frame.start_address@ ==> final(self).bits() == old(self).bits().update(
                    idx,
                    false,
                ),
    {
        proof {
            lemma_page_size_is_pow2();
            lemma_total_frames_nonneg(self.mm());
            assert(self.mm().subrange(0, 0) =~= Seq::<MmapEntry>::empty());
            assert(self.mm().subrange(0, self.mm().len() as int) =~= self.mm());
        }
        let ghost mm = self.mm();
        let addr = frame.start_address.as_u64();
        let mut acc: u64 = 0;
        let mut k: usize = 0;
        let mut found: u64 = 0;
        let mut have_found = false;
        while k < self.memory_map.len() && !have_found
            invariant
                is_pow2(PAGE_SIZE as int),
                self == old(self),
                self.wf(),
                mm == self.mm(),
                k <= mm.len(),
                !have_found ==> acc as int == spec_total_frames(mm.subrange(0, k as int)),
                !have_found ==> forall|t: int|
                    0 <= t ==> spec_frame_addr(mm.subrange(k as int, mm.len() as int), t)
                        == spec_frame_addr(mm, acc + t),
                !have_found ==> forall|idx: int|
                    0 <= idx < acc ==> spec_frame_addr(mm, idx) != addr,
                have_found ==> 0 <= found < self.total() && spec_frame_addr(mm, found as int)
                    == addr,
            decreases mm.len() - k,
        {
            let e = self.memory_map[k];
            let ghost tail = mm.subrange(k as int, mm.len() as int);
            proof {
                assert(tail[0] == mm[k as int]);
                assert(tail.drop_first() =~= mm.subrange(k + 1, mm.len() as int));
                assert(mm.subrange(0, k + 1) =~= mm.subrange(0, k as int).push(mm[k as int]));
                lemma_total_frames_push(mm.subrange(0, k as int), mm[k as int]);
                lemma_total_frames_nonneg(mm.subrange(0, k as int));
            }
            if e.typ == MMAP_AVAILABLE && e.len >= PAGE_SIZE {
                proof {
                    lemma_mod_bound(e.addr as int, PAGE_SIZE as int);
                    lemma_entry_range(e);
                }
                let first = align_up(e.addr, PAGE_SIZE);
                let end = align_down(e.addr + e.len, PAGE_SIZE);
                let cnt = if end > first {
                    (end - first) / PAGE_SIZE
                } else {
                    0
                };
                proof {
                    assert(cnt as int == spec_entry_frames(e));
                }
                if first <= addr && addr < end && (addr - first) % PAGE_SIZE == 0 {
                    let off = (addr - first) / PAGE_SIZE;
                    proof {
                        let p = PAGE_SIZE as int;
                        lemma_fundamental_div_mod(addr as int - first as int, p);
                        assert(addr as int - first as int == p * (off as int));
                        lemma_mul_is_commutative(p, off as int);
                        // the offset is a whole number of frames below
                        // the end of the region, so it is within count
                        assert(off < cnt) by {
                            lemma_mod_diff_zero(first as int, end as int, p);
                            lemma_fundamental_div_mod(end as int - first as int, p);
                            assert(end as int - first as int == p * (cnt as int));
                            assert(p * (off as int) < p * (cnt as int));
                            lemma_mul_strict_order_factor(off as int, cnt as int, p);
                        }
                        assert(spec_frame_addr(tail, off as int) == first as int + off as int
                            * p);
                        assert(spec_frame_addr(mm, acc as int + off as int) == addr);
                        lemma_total_frames_split(mm, k as int);
                        lemma_total_frames_nonneg(tail.drop_first());
                        assert((acc as int + off as int) < self.total());
                    }
                    found = acc + off;
                    have_found = true;
                } else {
                    proof {
                        assert forall|idx: int| 0 <= idx < acc + cnt implies spec_frame_addr(
                            mm,
                            idx,
                        ) != addr by {
                            if acc <= idx {
                                let off = idx - acc;
                                let p = PAGE_SIZE as int;
                                assert(spec_frame_addr(tail, off) == spec_entry_first(e) + off
                                    * p);
                                lemma_entry_no_match(e, off, addr as int);
                            }
                        }
                    }
                    proof {
                        lemma_total_frames_split(mm, k as int + 1);
                        lemma_total_frames_nonneg(mm.subrange(k as int + 1, mm.len() as int));
                        assert forall|t: int| 0 <= t implies #[trigger] spec_frame_addr(
                            mm.subrange(k as int + 1, mm.len() as int),
                            t,
                        ) == spec_frame_addr(mm, (acc + cnt) + t) by {
                            assert(spec_frame_addr(tail, t + cnt) == spec_frame_addr(
                                tail.drop_first(),
                                t,
                            ));
                        }
                    }
                    acc = acc + cnt;
                }
            } else {
                proof {
                    assert(spec_entry_frames(mm[k as int]) == 0);
                    assert forall|t: int| 0 <= t implies #[trigger] spec_frame_addr(
                        mm.subrange(k as int + 1, mm.len() as int),
                        t,
                    ) == spec_frame_addr(mm, acc + t) by {
                        assert(spec_frame_addr(tail, t) == spec_frame_addr(tail.drop_first(), t));
                    }
                }
            }
            k += 1;
        }
        if !have_found {
            proof {
                assert(mm.subrange(0, mm.len() as int) =~= mm);
                let idx0 = choose|idx: int|
                    0 <= idx < old(self).total() && spec_frame_addr(old(self).mm(), idx)
                        == frame.start_address@;
                assert(spec_frame_addr(mm, idx0) != addr);
                assert(false);
            }
            return unreached();
        }
        let ghost s = self.bits();
        proof {
            lemma_div_is_ordered(found as int, self.total_pages as int, 8);
        }
        self.unset_bit(found);
        proof {
            assert forall|k2: int| 0 <= k2 < self.total() implies self.bits()[k2] == s.update(
                found as int,
                false,
            )[k2] by {
                lemma_div_is_ordered(k2, self.total(), 8);
            }
            assert(self.bits() =~= s.update(found as int, false));
            assert forall|idx: int|
                0 <= idx < old(self).total() && spec_frame_addr(old(self).mm(), idx)
                    == frame.start_address@ implies idx == found as int by {
                if idx != found as int {
                    lemma_frame_exclusivity(mm, idx, found as int);
                }
            }
        }
    }

    /// Clears one bit of the allocation bitmap.
    fn unset_bit(&mut self, index: u64)
        requires
            old(self).wf(),
            index as int / 8 < old(self).bitmap@.len(),
        ensures
            final(self).wf(),
            final(self).memory_map == old(self).memory_map,
            final(self).total_pages == old(self).total_pages,
            forall|k: int|
                0 <= k && k / 8 < final(self).bitmap@.len() ==> spec_bit(
                    final(self).bitmap@,
                    k,
                ) == (k != index && spec_bit(old(self).bitmap@, k)),
    {
        let byte_index = (index / 8) as usize;
        let bit_index = (index % 8) as u8;
        proof {
            lemma_mod_bound(index as int, 8);
        }
        if byte_index >= self.bitmap.len() {
            return unreached();
        }
        let b = self.bitmap[byte_index];
        self.bitmap.set(byte_index, b & !(1u8 << (7 - bit_index)));
        proof {
            let bm0 = old(self).bitmap@;
            let bm1 = self.bitmap@;
            let s = (7 - bit_index) as u8;
            assert forall|k: int| 0 <= k && k / 8 < bm1.len() implies spec_bit(bm1, k) == (k
                != index && spec_bit(bm0, k)) by {
                lemma_mod_bound(k, 8);
                let j = (7 - k % 8) as u8;
                if k / 8 == byte_index {
                    lemma_u8_clear_bit(b, s, j);
                    if k != index {
                        lemma_fundamental_div_mod(k, 8);
                        lemma_fundamental_div_mod(index as int, 8);
                        assert(j != s);
                    }
                } else {
                    assert(bm1[k / 8] == bm0[k / 8]);
                }
            }
        }
    }
}

} // verus!
