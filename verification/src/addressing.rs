//! Canonical virtual addresses, physical addresses, and the index
//! arithmetic that splits a virtual address into page-table indices.

use vstd::prelude::*;
use vstd::arithmetic::div_mod::{
    lemma_fundamental_div_mod_converse_div, lemma_fundamental_div_mod_converse_mod,
    lemma_mod_bound, lemma_mod_multiples_basic, lemma_div_is_ordered,
};
use vstd::arithmetic::mul::{lemma_mul_inequality, lemma_mul_is_commutative};
use vstd::arithmetic::power::{lemma_pow_adds, lemma_pow_positive, lemma_pow_strictly_increases, pow};
use vstd::arithmetic::power2::{is_pow2, is_pow2_equiv, lemma2_to64, lemma2_to64_rest, pow2};
use crate::align::{lemma_pow2_positive, spec_align_down, spec_is_aligned};

verus! {

/// Virtual base address at which the kernel's high-half image lives.
pub const KERNEL_BASE: u64 = 0xFFFFFFFF80000000;

/// Start of the high (sign-extended) canonical range.
pub const CANONICAL_HIGH_START: u64 = 0xFFFF800000000000;

/// First address above the low canonical range.
pub const CANONICAL_LOW_END: u64 = 0x0000800000000000;

/// First address above the physical address space (52 bits wide).
pub const PHYS_ADDR_END: u64 = 0x0010000000000000;

/// An `x86_64` virtual address is canonical when its top 16 bits are a
/// sign extension of bit 47.
pub open spec fn spec_canonical(addr: u64) -> bool {
    addr < CANONICAL_LOW_END || addr >= CANONICAL_HIGH_START
}

/// A physical address fits in the 52 bits the page tables can hold.
pub open spec fn spec_phys_valid(addr: u64) -> bool {
    addr < PHYS_ADDR_END
}

/// Level-4 (top) page-table index of a virtual address.
pub open spec fn spec_p4_index(addr: u64) -> int {
    (addr as int / 0x8000000000) % 512
}

/// Level-3 page-table index of a virtual address.
pub open spec fn spec_p3_index(addr: u64) -> int {
    (addr as int / 0x40000000) % 512
}

/// Level-2 page-table index of a virtual address.
pub open spec fn spec_p2_index(addr: u64) -> int {
    (addr as int / 0x200000) % 512
}

/// Byte offset of a virtual address within its huge page.
pub open spec fn spec_page_offset(addr: u64) -> int {
    addr as int % 0x200000
}

/// Virtual address assembled from the three table indices, sign-extended
/// when the top-level index falls in the high half.
pub open spec fn spec_from_table_indexes(p4: int, p3: int, p2: int) -> int {
    (if p4 >= 256 { 0xFFFF000000000000 } else { 0int })
        + p4 * 0x8000000000 + p3 * 0x40000000 + p2 * 0x200000
}

/// A canonical 64-bit virtual memory address.
///
/// Only the 48 lower bits of a virtual address carry data; the top 16
/// bits must be copies of bit 47.  This type only holds such addresses.
#[derive(Clone, Copy, PartialEq, Eq, Structural, Hash, PartialOrd, Ord, Debug)]
pub struct VirtAddr(u64);

impl View for VirtAddr {
    type V = u64;

    closed spec fn view(&self) -> u64 {
        self.0
    }
}

impl VirtAddr {
    /// Every value of this type holds a canonical address.
    #[verifier::type_invariant]
    spec fn inv(self) -> bool {
        spec_canonical(self.0)
    }

    /// Creates a new canonical virtual address.
    ///
    /// Performs sign extension of bit 47 to make the address canonical;
    /// the bits in the range 48 to 64 must hold no data.
    #[inline]
    pub fn new(addr: u64) -> (r: VirtAddr)
        requires
            addr / 0x800000000000 == 0 || addr / 0x800000000000 == 1
                || addr / 0x800000000000 == 0x1ffff,
        ensures
            r@ == if addr / 0x800000000000 == 1 { addr + 0xFFFF000000000000 } else { addr as int },
            spec_canonical(r@),
    {
        let r = Self::try_new(addr);
        r.unwrap()
    }

    /// Tries to create a new canonical virtual address.
    ///
    /// Succeeds if bits 48 to 64 are either a correct sign extension
    /// (i.e. copies of bit 47) or all null; else no address is returned.
    #[inline]
    pub fn try_new(addr: u64) -> (r: Option<VirtAddr>)
        ensures
            match r {
                Some(v) => (addr / 0x800000000000 == 0 || addr / 0x800000000000 == 1
                    || addr / 0x800000000000 == 0x1ffff)
                    && v@ == if addr / 0x800000000000 == 1 {
                        addr + 0xFFFF000000000000
                    } else {
                        addr as int
                    }
                    && spec_canonical(v@),
                None => addr / 0x800000000000 > 1 && addr / 0x800000000000 < 0x1ffff,
            },
    {
        let top = addr / 0x800000000000;
        if top == 0 {
            proof {
                lemma_div_bound_below(addr as int, 0x800000000000);
            }
            Some(VirtAddr(addr))
        } else if top == 0x1ffff {
            proof {
                lemma_div_bound_above(addr as int, 0x800000000000, 0x1ffff);
            }
            Some(VirtAddr(addr))
        } else if top == 1 {
            proof {
                lemma_div_bound_above(addr as int, 0x800000000000, 1);
            }
            Some(VirtAddr(addr + 0xFFFF000000000000))
        } else {
            None
        }
    }

    /// Converts the address to an `u64`.
    #[inline]
    pub fn as_u64(self) -> (r: u64)
        ensures
            r == self@,
    {
        self.0
    }

    /// Returns the 9-bit level 4 page table index.
    #[inline]
    pub fn p4_index(self) -> (r: usize)
        ensures
            r == spec_p4_index(self@),
            r < 512,
    {
        proof {
            lemma_mod_bound(self@ as int / 0x8000000000, 512);
        }
        ((self.0 / 0x8000000000) % 512) as usize
    }

    /// Returns the 9-bit level 3 page table index.
    #[inline]
    pub fn p3_index(self) -> (r: usize)
        ensures
            r == spec_p3_index(self@),
            r < 512,
    {
        proof {
            lemma_mod_bound(self@ as int / 0x40000000, 512);
        }
        ((self.0 / 0x40000000) % 512) as usize
    }

    /// Returns the 9-bit level 2 page table index.
    #[inline]
    pub fn p2_index(self) -> (r: usize)
        ensures
            r == spec_p2_index(self@),
            r < 512,
    {
        proof {
            lemma_mod_bound(self@ as int / 0x200000, 512);
        }
        ((self.0 / 0x200000) % 512) as usize
    }

    /// Returns the 21-bit page offset of this virtual address.
    #[inline]
    pub fn page_offset(self) -> (r: u64)
        ensures
            r == spec_page_offset(self@),
    {
        proof {
            lemma_mod_bound(self@ as int, 0x200000);
        }
        self.0 % 0x200000
    }

    /// Builds the virtual address whose page-table walk visits exactly
    /// the three given indices, with a zero page offset.
    pub fn from_table_indexes(p4: usize, p3: usize, p2: usize) -> (r: VirtAddr)
        requires
            p4 < 512,
            p3 < 512,
            p2 < 512,
        ensures
            r@ == spec_from_table_indexes(p4 as int, p3 as int, p2 as int),
            spec_canonical(r@),
            spec_p4_index(r@) == p4,
            spec_p3_index(r@) == p3,
            spec_p2_index(r@) == p2,
            spec_page_offset(r@) == 0,
    {
        let low: u64 = (p4 as u64) * 0x8000000000 + (p3 as u64) * 0x40000000
            + (p2 as u64) * 0x200000;
        let r: u64 = if p4 >= 256 { low + 0xFFFF000000000000 } else { low };
        proof {
            lemma_table_indexes_roundtrip(p4 as int, p3 as int, p2 as int);
        }
        VirtAddr(r)
    }

    /// Checks whether the virtual address has the demanded alignment.
    #[inline]
    pub fn is_aligned(self, align: u64) -> (r: bool)
        requires
            is_pow2(align as int),
        ensures
            r == spec_is_aligned(self@ as int, align as int),
    {
        proof {
            lemma_pow2_positive(align as int);
        }
        self.0 % align == 0
    }

    /// Aligns the virtual address downwards to the given alignment,
    /// which must not exceed the canonical boundary.
    #[inline]
    pub fn align_down(self, align: u64) -> (r: Self)
        requires
            is_pow2(align as int),
            align <= 0x800000000000,
        ensures
            r@ == spec_align_down(self@ as int, align as int),
            spec_canonical(r@),
    {
        proof {
            use_type_invariant(&self);
            lemma_pow2_positive(align as int);
            lemma_mod_bound(self@ as int, align as int);
            assert(self.0 % align <= self.0) by (nonlinear_arith)
                requires
                    align >= 1,
            ;
            lemma_align_down_canonical(self.0, align as int);
        }
        VirtAddr(self.0 - self.0 % align)
    }
}

/// A 64-bit physical memory address.
///
/// Only the 52 lower bits of a physical address can be used; the top
/// 12 bits must be zero.  This type only holds such addresses.
#[derive(Clone, Copy, PartialEq, Eq, Structural, Hash, PartialOrd, Ord, Debug)]
pub struct PhysAddr(u64);

impl View for PhysAddr {
    type V = u64;

    closed spec fn view(&self) -> u64 {
        self.0
    }
}

impl PhysAddr {
    /// Every value of this type holds a 52-bit physical address.
    #[verifier::type_invariant]
    spec fn inv(self) -> bool {
        spec_phys_valid(self.0)
    }

    /// Creates a new physical address; bits 52 to 64 must be unset.
    #[inline]
    pub fn new(addr: u64) -> (r: Self)
        requires
            spec_phys_valid(addr),
        ensures
            r@ == addr,
    {
        PhysAddr(addr)
    }

    /// Creates a new physical address, throwing bits 52..64 away.
    #[inline]
    pub fn new_truncate(addr: u64) -> (r: PhysAddr)
        ensures
            r@ == addr as int % 0x0010000000000000,
            spec_phys_valid(r@),
    {
        proof {
            lemma_mod_bound(addr as int, 0x0010000000000000);
        }
        PhysAddr(addr % 0x0010000000000000)
    }

    /// Tries to create a new physical address; fails if any bits in the
    /// range 52 to 64 are set.
    #[inline]
    pub fn try_new(addr: u64) -> (r: Option<Self>)
        ensures
            match r {
                Some(p) => spec_phys_valid(addr) && p@ == addr,
                None => !spec_phys_valid(addr),
            },
    {
        if addr < 0x0010000000000000 {
            Some(PhysAddr(addr))
        } else {
            None
        }
    }

    /// Converts the address to an `u64`.
    #[inline]
    pub fn as_u64(self) -> (r: u64)
        ensures
            r == self@,
    {
        self.0
    }

    /// Checks whether the physical address has the demanded alignment.
    #[inline]
    pub fn is_aligned(self, align: u64) -> (r: bool)
        requires
            is_pow2(align as int),
        ensures
            r == spec_is_aligned(self@ as int, align as int),
    {
        proof {
            lemma_pow2_positive(align as int);
        }
        self.0 % align == 0
    }

    /// Aligns the physical address downwards to the given alignment.
    #[inline]
    pub fn align_down(self, align: u64) -> (r: Self)
        requires
            is_pow2(align as int),
        ensures
            r@ == spec_align_down(self@ as int, align as int),
            spec_phys_valid(r@),
    {
        proof {
            use_type_invariant(&self);
            lemma_pow2_positive(align as int);
            lemma_mod_bound(self@ as int, align as int);
            assert(self.0 % align <= self.0) by (nonlinear_arith)
                requires
                    align >= 1,
            ;
        }
        PhysAddr(self.0 - self.0 % align)
    }
}

/// `x / d == 0` puts `x` below `d`.
proof fn lemma_div_bound_below(x: int, d: int)
    requires
        d > 0,
        0 <= x,
        x / d == 0,
    ensures
        x < d,
{
    vstd::arithmetic::div_mod::lemma_fundamental_div_mod(x, d);
    lemma_mod_bound(x, d);
}

/// `x / d >= q` puts `x` at or above `q * d`.
proof fn lemma_div_bound_below_q(x: int, d: int, q: int)
    requires
        d > 0,
        0 <= x,
        x / d >= q,
    ensures
        x >= q * d,
{
    vstd::arithmetic::div_mod::lemma_fundamental_div_mod(x, d);
    lemma_mod_bound(x, d);
    lemma_mul_inequality(q, x / d, d);
    lemma_mul_is_commutative(x / d, d);
}

/// `x / d == q` puts `x` below `(q + 1) * d`.
proof fn lemma_div_bound_above(x: int, d: int, q: int)
    requires
        d > 0,
        0 <= x,
        x / d == q,
    ensures
        q * d <= x < (q + 1) * d,
{
    vstd::arithmetic::div_mod::lemma_fundamental_div_mod(x, d);
    lemma_mod_bound(x, d);
    lemma_mul_is_commutative(q, d);
    assert((q + 1) * d == q * d + d) by (nonlinear_arith);
}

/// Rounding a canonical address down by at most the canonical boundary
/// keeps it canonical.
proof fn lemma_align_down_canonical(addr: u64, align: int)
    requires
        is_pow2(align),
        align <= 0x800000000000,
        spec_canonical(addr),
    ensures
        spec_canonical((addr as int - addr as int % align) as u64),
{
    lemma_pow2_positive(align);
    lemma_mod_bound(addr as int, align);
    assert(addr as int % align <= addr as int) by (nonlinear_arith)
        requires
            align >= 1,
            addr as int >= 0,
    ;
    if addr >= CANONICAL_HIGH_START {
        // The high-half base is a multiple of every power of two up to
        // the canonical boundary, and align_down is monotonic above it.
        assert(CANONICAL_HIGH_START as int % align == 0) by {
            lemma_high_half_multiple(align);
        }
        let a = addr as int;
        let m = CANONICAL_HIGH_START as int;
        lemma_div_is_ordered(m, a, align);
        vstd::arithmetic::div_mod::lemma_fundamental_div_mod(a, align);
        vstd::arithmetic::div_mod::lemma_fundamental_div_mod(m, align);
        lemma_mul_inequality(m / align, a / align, align);
        lemma_mul_is_commutative(m / align, align);
        lemma_mul_is_commutative(a / align, align);
    }
}

/// Every power of two up to `2^47` divides the high-half base address.
proof fn lemma_high_half_multiple(align: int)
    requires
        is_pow2(align),
        align <= 0x800000000000,
    ensures
        CANONICAL_HIGH_START as int % align == 0,
{
    is_pow2_equiv(align);
    let n = choose|i: nat| pow(2, i) == align;
    lemma_pow_positive(2, n);
    lemma_pow_positive(2, 47);
    lemma2_to64();
    lemma2_to64_rest();
    assert(pow2(47) == 0x800000000000);
    assert(pow(2, 47) == 0x800000000000);
    if n > 47 {
        lemma_pow_strictly_increases(2, 47, n);
        assert(false);
    }
    lemma_pow_adds(2, n, (47 - n) as nat);
    assert(pow(2, 47) == pow(2, n) * pow(2, (47 - n) as nat));
    lemma_pow_positive(2, (47 - n) as nat);
    let c = pow(2, (47 - n) as nat);
    // CANONICAL_HIGH_START == 0x1ffff * 2^47 == (0x1ffff * c) * align
    assert(CANONICAL_HIGH_START as int == 0x1ffff * (align * c)) by (nonlinear_arith)
        requires
            align * c == 0x800000000000,
    ;
    assert(CANONICAL_HIGH_START as int == (0x1ffff * c) * align) by (nonlinear_arith)
        requires
            CANONICAL_HIGH_START as int == 0x1ffff * (align * c),
    ;
    lemma_mod_multiples_basic(0x1ffff * c, align);
}

/// An address assembled from table indices leaves room, within the
/// 64-bit address space, for a whole run of pages inside its leaf
/// table.
pub proof fn lemma_from_table_indexes_bound(p4: int, p3: int, p2: int, n: int)
    requires
        0 <= p4 < 512,
        0 <= p3 < 512,
        0 <= p2,
        1 <= n,
        p2 + n <= 512,
    ensures
        0 <= spec_from_table_indexes(p4, p3, p2),
        spec_from_table_indexes(p4, p3, p2) + n * 0x200000 <= 0x10000000000000000,
{
    assert(0 <= p4 * 0x8000000000 <= 511 * 0x8000000000) by (nonlinear_arith)
        requires
            0 <= p4 < 512,
    ;
    assert(0 <= p3 * 0x40000000 <= 511 * 0x40000000) by (nonlinear_arith)
        requires
            0 <= p3 < 512,
    ;
    assert(0 <= p2 * 0x200000) by (nonlinear_arith)
        requires
            0 <= p2,
    ;
    assert(p2 * 0x200000 + n * 0x200000 <= 512 * 0x200000) by (nonlinear_arith)
        requires
            p2 + n <= 512,
            0 <= p2,
            1 <= n,
    ;
}

/// The assembled address decomposes back into its three indices.
proof fn lemma_table_indexes_roundtrip(p4: int, p3: int, p2: int)
    requires
        0 <= p4 < 512,
        0 <= p3 < 512,
        0 <= p2 < 512,
    ensures
        ({
            let r = spec_from_table_indexes(p4, p3, p2);
            &&& 0 <= r <= u64::MAX
            &&& spec_canonical(r as u64)
            &&& spec_p4_index(r as u64) == p4
            &&& spec_p3_index(r as u64) == p3
            &&& spec_p2_index(r as u64) == p2
            &&& spec_page_offset(r as u64) == 0
        }),
{
    let r = spec_from_table_indexes(p4, p3, p2);
    let high: int = if p4 >= 256 { 0xFFFF000000000000 } else { 0 };
    let h: int = if p4 >= 256 { 1 } else { 0 };
    assert(high == h * 0xFFFF000000000000);
    let low = p3 * 0x40000000 + p2 * 0x200000;
    assert(p3 * 0x40000000 <= 511 * 0x40000000) by (nonlinear_arith)
        requires
            p3 < 512,
    ;
    assert(p2 * 0x200000 <= 511 * 0x200000) by (nonlinear_arith)
        requires
            p2 < 512,
    ;
    assert(0 <= p3 * 0x40000000) by (nonlinear_arith)
        requires
            0 <= p3,
    ;
    assert(0 <= p2 * 0x200000) by (nonlinear_arith)
        requires
            0 <= p2,
    ;
    assert(0 <= p4 * 0x8000000000 <= 511 * 0x8000000000) by (nonlinear_arith)
        requires
            0 <= p4 < 512,
    ;
    // p4 round trip: r == (h * 0xFFFF * 512 + 0 ... ) deconstructed at 2^39
    let q4 = h * 0x1FFFE00 + p4;
    assert(r == q4 * 0x8000000000 + low) by (nonlinear_arith)
        requires
            r == h * 0xFFFF000000000000 + p4 * 0x8000000000 + low,
            q4 == h * 0x1FFFE00 + p4,
            0 <= h <= 1,
    ;
    lemma_fundamental_div_mod_converse_div(r, 0x8000000000, q4, low);
    lemma_fundamental_div_mod_converse_mod(q4, 512, h * 0xFFFF, p4);
    assert(q4 == (h * 0xFFFF) * 512 + p4) by (nonlinear_arith)
        requires
            q4 == h * 0x1FFFE00 + p4,
    ;
    assert(spec_p4_index(r as u64) == p4);
    // p3 round trip at 2^30
    let q3 = (h * 0x1FFFE00 + p4) * 512 + p3;
    assert(r == q3 * 0x40000000 + p2 * 0x200000) by (nonlinear_arith)
        requires
            r == h * 0xFFFF000000000000 + p4 * 0x8000000000 + p3 * 0x40000000 + p2 * 0x200000,
            q3 == (h * 0x1FFFE00 + p4) * 512 + p3,
            0 <= h <= 1,
    ;
    lemma_fundamental_div_mod_converse_div(r, 0x40000000, q3, p2 * 0x200000);
    lemma_fundamental_div_mod_converse_mod(q3, 512, h * 0x1FFFE00 + p4, p3);
    assert(spec_p3_index(r as u64) == p3);
    // p2 round trip at 2^21
    let q2 = ((h * 0x1FFFE00 + p4) * 512 + p3) * 512 + p2;
    assert(r == q2 * 0x200000 + 0) by (nonlinear_arith)
        requires
            r == h * 0xFFFF000000000000 + p4 * 0x8000000000 + p3 * 0x40000000 + p2 * 0x200000,
            q2 == ((h * 0x1FFFE00 + p4) * 512 + p3) * 512 + p2,
            0 <= h <= 1,
    ;
    lemma_fundamental_div_mod_converse_div(r, 0x200000, q2, 0);
    lemma_fundamental_div_mod_converse_mod(r, 0x200000, q2, 0);
    lemma_fundamental_div_mod_converse_mod(q2, 512, (h * 0x1FFFE00 + p4) * 512 + p3, p2);
    assert(spec_p2_index(r as u64) == p2);
    assert(spec_page_offset(r as u64) == 0);
}

} // verus!
