//! Virtual and physical addresses, pages, frames and page-table entry flags.
//!
//! A virtual address decomposes into four 9-bit table indices (levels 4 to 1,
//! most significant first) and a 12-bit in-page offset. A physical address
//! must keep every bit above the supported 52-bit physical width clear.
//! Pages and frames are the 4096-byte aligned units of virtual and physical
//! memory.

use vstd::prelude::*;

verus! {

/// Size in bytes of a page and of a frame.
pub const PAGE_SIZE: u64 = 4096;

/// Mask selecting the frame-address bits (12..52) of a page-table entry.
pub const ENTRY_ADDR_MASK: u64 = 0x000f_ffff_ffff_f000;

/// First physical address beyond the supported 52-bit physical width.
pub const PHYS_LIMIT: u64 = 0x0010_0000_0000_0000;

/// Entry or flag bit: the entry is present.
pub const FLAG_PRESENT: u64 = 1;

/// Entry or flag bit: the mapped memory is writable.
pub const FLAG_WRITABLE: u64 = 2;

/// Entry or flag bit: the entry maps a huge page directly at a non-leaf
/// level. Unsupported by this design; walks report it as a fatal condition.
pub const FLAG_HUGE_PAGE: u64 = 0x80;

/// A virtual address is canonical when bits 63..47 are a sign extension of
/// bit 47: the 17 topmost bits are either all clear or all set.
pub open spec fn canonical(va: u64) -> bool {
    va >> 47 == 0 || va >> 47 == 0x1ffff
}

/// A page- or frame-aligned address.
pub open spec fn page_aligned(a: u64) -> bool {
    a % 4096 == 0
}

/// A physical address within the supported 52-bit physical width.
pub open spec fn phys_bounded(a: u64) -> bool {
    a < 0x0010_0000_0000_0000
}

/// Level-4 table index of a virtual address: bits 39..48.
pub open spec fn p4_index_spec(va: u64) -> u64 {
    (va >> 39) & 0x1ff
}

/// Level-3 table index of a virtual address: bits 30..39.
pub open spec fn p3_index_spec(va: u64) -> u64 {
    (va >> 30) & 0x1ff
}

/// Level-2 table index of a virtual address: bits 21..30.
pub open spec fn p2_index_spec(va: u64) -> u64 {
    (va >> 21) & 0x1ff
}

/// Level-1 table index of a virtual address: bits 12..21.
pub open spec fn p1_index_spec(va: u64) -> u64 {
    (va >> 12) & 0x1ff
}

/// In-page offset of a virtual address: bits 0..12.
pub open spec fn page_offset_spec(va: u64) -> u64 {
    va & 0xfff
}

/// Base address of the page containing a virtual address.
pub open spec fn page_base_spec(va: u64) -> u64 {
    va & 0xffff_ffff_ffff_f000
}

/// Two virtual addresses route through the same four table slots exactly
/// when all four indices agree.
pub open spec fn same_slots(va: u64, vb: u64) -> bool {
    &&& p4_index_spec(va) == p4_index_spec(vb)
    &&& p3_index_spec(va) == p3_index_spec(vb)
    &&& p2_index_spec(va) == p2_index_spec(vb)
    &&& p1_index_spec(va) == p1_index_spec(vb)
}

/// All four table indices and the in-page offset lie in their 9- and 12-bit
/// ranges.
pub proof fn lemma_index_bounds(va: u64)
    ensures
        p4_index_spec(va) < 512,
        p3_index_spec(va) < 512,
        p2_index_spec(va) < 512,
        p1_index_spec(va) < 512,
        page_offset_spec(va) < 4096,
{
    assert((va >> 39) & 0x1ff < 512 && (va >> 30) & 0x1ff < 512 && (va >> 21) & 0x1ff < 512
        && (va >> 12) & 0x1ff < 512 && va & 0xfff < 4096) by (bit_vector);
}

/// Adding an in-page offset to an aligned base stays inside the page: the
/// sum does not overflow, coincides with bitwise or, keeps all four table
/// indices and the page base, and has the offset as its in-page part.
pub proof fn lemma_offset_in_page(p: u64, k: u64)
    requires
        page_aligned(p),
        k < 4096,
    ensures
        p + k == p | k,
        p4_index_spec((p + k) as u64) == p4_index_spec(p),
        p3_index_spec((p + k) as u64) == p3_index_spec(p),
        p2_index_spec((p + k) as u64) == p2_index_spec(p),
        p1_index_spec((p + k) as u64) == p1_index_spec(p),
        page_offset_spec((p + k) as u64) == k,
        page_base_spec((p + k) as u64) == p,
{
    assert((p % 4096 == 0 && k < 4096) ==> p + k == (p | k) && ((p | k) >> 39) & 0x1ff == (p
        >> 39) & 0x1ff && ((p | k) >> 30) & 0x1ff == (p >> 30) & 0x1ff && ((p | k) >> 21) & 0x1ff
        == (p >> 21) & 0x1ff && ((p | k) >> 12) & 0x1ff == (p >> 12) & 0x1ff && (p | k) & 0xfff
        == k && (p | k) & 0xffff_ffff_ffff_f000 == p) by (bit_vector);
}

/// Canonical virtual addresses that agree on all four table indices lie in
/// the same page: their page bases are equal.
pub proof fn lemma_same_slots_same_page(va: u64, vb: u64)
    requires
        canonical(va),
        canonical(vb),
        same_slots(va, vb),
    ensures
        page_base_spec(va) == page_base_spec(vb),
{
    assert(((va >> 47 == 0 || va >> 47 == 0x1ffff) && (vb >> 47 == 0 || vb >> 47 == 0x1ffff)
        && (va >> 39) & 0x1ff == (vb >> 39) & 0x1ff && (va >> 30) & 0x1ff == (vb >> 30) & 0x1ff
        && (va >> 21) & 0x1ff == (vb >> 21) & 0x1ff && (va >> 12) & 0x1ff == (vb >> 12) & 0x1ff)
        ==> va & 0xffff_ffff_ffff_f000 == vb & 0xffff_ffff_ffff_f000) by (bit_vector);
}

/// Taking the page base keeps canonicality and yields an aligned address
/// whose indices match the original's.
pub proof fn lemma_page_base(va: u64)
    ensures
        page_aligned(page_base_spec(va)),
        canonical(va) ==> canonical(page_base_spec(va)),
        same_slots(page_base_spec(va), va),
        page_offset_spec(page_base_spec(va)) == 0,
{
    assert((va & 0xffff_ffff_ffff_f000) % 4096 == 0 && (va & 0xffff_ffff_ffff_f000) >> 47 == va
        >> 47 && ((va & 0xffff_ffff_ffff_f000) >> 39) & 0x1ff == (va >> 39) & 0x1ff && ((va
        & 0xffff_ffff_ffff_f000) >> 30) & 0x1ff == (va >> 30) & 0x1ff && ((va
        & 0xffff_ffff_ffff_f000) >> 21) & 0x1ff == (va >> 21) & 0x1ff && ((va
        & 0xffff_ffff_ffff_f000) >> 12) & 0x1ff == (va >> 12) & 0x1ff && (va
        & 0xffff_ffff_ffff_f000) & 0xfff == 0) by (bit_vector);
}

/// Level-4 table index of a virtual address.
pub fn p4_index(va: u64) -> (r: u64)
    ensures
        r == p4_index_spec(va),
        r < 512,
{
    proof {
        lemma_index_bounds(va);
    }
    (va >> 39) & 0x1ff
}

/// Level-3 table index of a virtual address.
pub fn p3_index(va: u64) -> (r: u64)
    ensures
        r == p3_index_spec(va),
        r < 512,
{
    proof {
        lemma_index_bounds(va);
    }
    (va >> 30) & 0x1ff
}

/// Level-2 table index of a virtual address.
pub fn p2_index(va: u64) -> (r: u64)
    ensures
        r == p2_index_spec(va),
        r < 512,
{
    proof {
        lemma_index_bounds(va);
    }
    (va >> 21) & 0x1ff
}

/// Level-1 table index of a virtual address.
pub fn p1_index(va: u64) -> (r: u64)
    ensures
        r == p1_index_spec(va),
        r < 512,
{
    proof {
        lemma_index_bounds(va);
    }
    (va >> 12) & 0x1ff
}

/// In-page offset of a virtual address.
pub fn page_offset(va: u64) -> (r: u64)
    ensures
        r == page_offset_spec(va),
        r < 4096,
{
    proof {
        lemma_index_bounds(va);
    }
    va & 0xfff
}

/// A 64-bit virtual address; kept canonical.
#[derive(Clone, Copy, Debug, PartialEq, Eq, Structural)]
pub struct VirtAddr {
    pub addr: u64,
}

impl VirtAddr {
    /// The address is canonical.
    pub open spec fn wf(self) -> bool {
        canonical(self.addr)
    }

    /// Wraps a canonical 64-bit value.
    pub fn new(addr: u64) -> (r: VirtAddr)
        requires
            canonical(addr),
        ensures
            r.addr == addr,
            r.wf(),
    {
        VirtAddr { addr }
    }

    /// Wraps a 64-bit value, rejecting non-canonical ones.
    pub fn try_new(addr: u64) -> (r: Option<VirtAddr>)
        ensures
            canonical(addr) ==> r == Some(VirtAddr { addr }),
            !canonical(addr) ==> r is None,
    {
        if addr >> 47 == 0 || addr >> 47 == 0x1ffff {
            Some(VirtAddr { addr })
        } else {
            None
        }
    }

    /// The raw 64-bit value.
    pub fn as_u64(self) -> (r: u64)
        ensures
            r == self.addr,
    {
        self.addr
    }
}

/// A 64-bit physical address; bits at and above the 52-bit physical width
/// are kept clear.
#[derive(Clone, Copy, Debug, PartialEq, Eq, Structural)]
pub struct PhysAddr {
    pub addr: u64,
}

impl PhysAddr {
    /// The address lies within the supported physical width.
    pub open spec fn wf(self) -> bool {
        phys_bounded(self.addr)
    }

    /// Wraps a value within the supported physical width.
    pub fn new(addr: u64) -> (r: PhysAddr)
        requires
            phys_bounded(addr),
        ensures
            r.addr == addr,
            r.wf(),
    {
        PhysAddr { addr }
    }

    /// The raw 64-bit value.
    pub fn as_u64(self) -> (r: u64)
        ensures
            r == self.addr,
    {
        self.addr
    }
}

/// A 4096-byte virtual memory unit, named by its aligned base address.
#[derive(Clone, Copy, Debug, PartialEq, Eq, Structural)]
pub struct Page {
    pub base: u64,
}

impl Page {
    /// The base is page-aligned and canonical.
    pub open spec fn wf(self) -> bool {
        page_aligned(self.base) && canonical(self.base)
    }

    /// The page containing a virtual address.
    pub fn containing_address(addr: VirtAddr) -> (r: Page)
        requires
            addr.wf(),
        ensures
            r.base == page_base_spec(addr.addr),
            r.wf(),
            same_slots(r.base, addr.addr),
    {
        proof {
            lemma_page_base(addr.addr);
        }
        Page { base: addr.addr & 0xffff_ffff_ffff_f000 }
    }

    /// The base address of the page.
    pub fn start_address(self) -> (r: VirtAddr)
        requires
            self.wf(),
        ensures
            r.addr == self.base,
            r.wf(),
    {
        VirtAddr { addr: self.base }
    }
}

/// A 4096-byte physical memory unit, named by its aligned base address.
#[derive(Clone, Copy, Debug, PartialEq, Eq, Structural)]
pub struct PhysFrame {
    pub base: u64,
}

impl PhysFrame {
    /// The base is frame-aligned and within the supported physical width.
    pub open spec fn wf(self) -> bool {
        page_aligned(self.base) && phys_bounded(self.base)
    }

    /// The frame containing a physical address.
    pub fn containing_address(addr: PhysAddr) -> (r: PhysFrame)
        requires
            addr.wf(),
        ensures
            r.base == addr.addr & 0xffff_ffff_ffff_f000,
            r.wf(),
    {
        proof {
            let a = addr.addr;
            assert((a & 0xffff_ffff_ffff_f000) % 4096 == 0 && (a < 0x0010_0000_0000_0000 ==> (a
                & 0xffff_ffff_ffff_f000) < 0x0010_0000_0000_0000)) by (bit_vector);
        }
        PhysFrame { base: addr.addr & 0xffff_ffff_ffff_f000 }
    }

    /// The base address of the frame.
    pub fn start_address(self) -> (r: PhysAddr)
        requires
            self.wf(),
        ensures
            r.addr == self.base,
            r.wf(),
    {
        PhysAddr { addr: self.base }
    }
}

/// A set of page-table entry attribute bits; never carries frame-address
/// bits.
#[derive(Clone, Copy, Debug, PartialEq, Eq, Structural)]
pub struct PageTableFlags {
    pub bits: u64,
}

impl PageTableFlags {
    /// The bits stay clear of the frame-address field of an entry.
    pub open spec fn wf(self) -> bool {
        self.bits & ENTRY_ADDR_MASK == 0
    }

    /// The present bit is set.
    pub open spec fn is_present(self) -> bool {
        self.bits & FLAG_PRESENT == FLAG_PRESENT
    }

    /// The huge-page bit is set.
    pub open spec fn is_huge(self) -> bool {
        self.bits & FLAG_HUGE_PAGE == FLAG_HUGE_PAGE
    }

    /// Builds a flag set from the low 12 attribute bits of `bits`; any other
    /// bits are dropped.
    pub fn new(bits: u64) -> (r: PageTableFlags)
        ensures
            r.bits == bits & 0xfff,
            r.wf(),
    {
        proof {
            assert((bits & 0xfff) & 0x000f_ffff_ffff_f000 == 0) by (bit_vector);
        }
        PageTableFlags { bits: bits & 0xfff }
    }

    /// The union of two flag sets.
    pub fn union(self, other: PageTableFlags) -> (r: PageTableFlags)
        requires
            self.wf(),
            other.wf(),
        ensures
            r.bits == self.bits | other.bits,
            r.wf(),
    {
        proof {
            let a = self.bits;
            let b = other.bits;
            assert((a & 0x000f_ffff_ffff_f000 == 0 && b & 0x000f_ffff_ffff_f000 == 0) ==> (a
                | b) & 0x000f_ffff_ffff_f000 == 0) by (bit_vector);
        }
        PageTableFlags { bits: self.bits | other.bits }
    }
}

} // verus!
