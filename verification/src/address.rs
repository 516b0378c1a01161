//! Value types for physical and virtual addresses and page numbers, with the
//! conversions between them.  A page is 4096 bytes; page numbers are the bits
//! of an address above the 12-bit page offset.

use vstd::prelude::*;

verus! {

/// Size of one page in bytes.
pub const PAGE_SIZE: u64 = 4096;

/// Number of bits of the in-page offset.
pub const PAGE_SIZE_BITS: u64 = 12;

/// Upper bound (exclusive) on physical page numbers: they are 44 bits wide.
pub const PPN_LIMIT: u64 = 0x1000_0000_0000;

/// Upper bound (exclusive) on virtual page numbers: a 39-bit virtual address
/// leaves 27 bits for the page number.
pub const VPN_LIMIT: u64 = 0x800_0000;

/// A byte-granular physical address.
#[derive(Copy, Clone, PartialEq, Eq, Structural, Debug)]
pub struct PhysAddr(pub u64);

/// A page-granular physical address: the index of one physical frame.
#[derive(Copy, Clone, PartialEq, Eq, Structural, Debug)]
pub struct PhysPageNum(pub u64);

/// A byte-granular virtual address.
#[derive(Copy, Clone, PartialEq, Eq, Structural, Debug)]
pub struct VirtAddr(pub u64);

/// A page-granular virtual address.
#[derive(Copy, Clone, PartialEq, Eq, Structural, Debug)]
pub struct VirtPageNum(pub u64);

/// Whether an address lies exactly on a page boundary.
pub open spec fn page_aligned(a: u64) -> bool {
    a as int % (PAGE_SIZE as int) == 0
}

/// The entry index a virtual page number selects at one level of the
/// three-level table: bits [26:18] at level 0, [17:9] at level 1, [8:0] at
/// level 2, each a value below 512.
pub open spec fn vpn_index(vpn: u64, level: int) -> int {
    if level == 0 {
        (vpn as int / (512int * 512)) % 512
    } else if level == 1 {
        (vpn as int / 512int) % 512
    } else {
        vpn as int % 512
    }
}

impl PhysAddr {
    /// The page containing this address.
    pub fn floor(&self) -> (r: PhysPageNum)
        ensures
            r.0 == self.0 as int / PAGE_SIZE as int,
    {
        PhysPageNum(self.0 / PAGE_SIZE)
    }

    /// The first page boundary at or above this address, as a page number.
    pub fn ceil(&self) -> (r: PhysPageNum)
        requires
            self.0 + PAGE_SIZE - 1 <= u64::MAX,
        ensures
            r.0 == (self.0 + PAGE_SIZE - 1) as int / PAGE_SIZE as int,
            page_aligned(self.0) ==> r.0 == self.0 as int / PAGE_SIZE as int,
            !page_aligned(self.0) ==> r.0 == self.0 as int / PAGE_SIZE as int + 1,
    {
        PhysPageNum((self.0 + (PAGE_SIZE - 1)) / PAGE_SIZE)
    }

    /// The page number of a page-aligned address.  Alignment is the caller's
    /// obligation: a misaligned address has no exact page number.
    pub fn page_num(&self) -> (r: PhysPageNum)
        requires
            page_aligned(self.0),
        ensures
            r.0 == self.0 as int / PAGE_SIZE as int,
            r.0 * PAGE_SIZE == self.0,
    {
        PhysPageNum(self.0 / PAGE_SIZE)
    }
}

impl PhysPageNum {
    /// The first byte address of this page.
    pub fn addr(&self) -> (r: PhysAddr)
        requires
            self.0 * PAGE_SIZE <= u64::MAX,
        ensures
            r.0 == self.0 * PAGE_SIZE,
            page_aligned(r.0),
    {
        PhysAddr(self.0 * PAGE_SIZE)
    }
}

impl VirtAddr {
    /// The page containing this address.
    pub fn floor(&self) -> (r: VirtPageNum)
        ensures
            r.0 == self.0 as int / PAGE_SIZE as int,
    {
        VirtPageNum(self.0 / PAGE_SIZE)
    }

    /// The first page boundary at or above this address, as a page number.
    pub fn ceil(&self) -> (r: VirtPageNum)
        requires
            self.0 + PAGE_SIZE - 1 <= u64::MAX,
        ensures
            r.0 == (self.0 + PAGE_SIZE - 1) as int / PAGE_SIZE as int,
            page_aligned(self.0) ==> r.0 == self.0 as int / PAGE_SIZE as int,
            !page_aligned(self.0) ==> r.0 == self.0 as int / PAGE_SIZE as int + 1,
    {
        VirtPageNum((self.0 + (PAGE_SIZE - 1)) / PAGE_SIZE)
    }

    /// The page number of a page-aligned address.  Alignment is the caller's
    /// obligation: a misaligned address has no exact page number.
    pub fn page_num(&self) -> (r: VirtPageNum)
        requires
            page_aligned(self.0),
        ensures
            r.0 == self.0 as int / PAGE_SIZE as int,
            r.0 * PAGE_SIZE == self.0,
    {
        VirtPageNum(self.0 / PAGE_SIZE)
    }
}

impl VirtPageNum {
    /// The first byte address of this page.
    pub fn addr(&self) -> (r: VirtAddr)
        requires
            self.0 * PAGE_SIZE <= u64::MAX,
        ensures
            r.0 == self.0 * PAGE_SIZE,
            page_aligned(r.0),
    {
        VirtAddr(self.0 * PAGE_SIZE)
    }

    /// The three 9-bit indices this page number contributes to a walk of the
    /// three-level table, highest level first.
    pub fn indexes(&self) -> (r: (usize, usize, usize))
        ensures
            r.0 == vpn_index(self.0, 0),
            r.1 == vpn_index(self.0, 1),
            r.2 == vpn_index(self.0, 2),
            r.0 < 512 && r.1 < 512 && r.2 < 512,
    {
        let i0 = ((self.0 / (512 * 512)) % 512) as usize;
        let i1 = ((self.0 / 512) % 512) as usize;
        let i2 = (self.0 % 512) as usize;
        (i0, i1, i2)
    }
}

/// Two virtual page numbers below the SV39 bound with the same three walk
/// indices are the same page.
pub proof fn lemma_vpn_indexes_injective(a: u64, b: u64)
    requires
        a < VPN_LIMIT,
        b < VPN_LIMIT,
        vpn_index(a, 0) == vpn_index(b, 0),
        vpn_index(a, 1) == vpn_index(b, 1),
        vpn_index(a, 2) == vpn_index(b, 2),
    ensures
        a == b,
{
    lemma_vpn_decompose(a);
    lemma_vpn_decompose(b);
}

/// A virtual page number below the SV39 bound is rebuilt exactly from its
/// three walk indices.
pub proof fn lemma_vpn_decompose(a: u64)
    requires
        a < VPN_LIMIT,
    ensures
        a == vpn_index(a, 0) * (512 * 512) + vpn_index(a, 1) * 512 + vpn_index(a, 2),
{
    let x = a as int;
    assert(x == (x / (512int * 512)) % 512 * (512 * 512) + (x / 512int) % 512 * 512 + x % 512int)
        by (nonlinear_arith)
        requires
            0 <= x < 0x800_0000,
    ;
}


/// Address conversions round-trip for page-aligned inputs: the page number
/// of an aligned address, scaled back up, is the address again.  This is
/// the arithmetic behind `page_num` followed by `addr`, for the virtual
/// types and the physical ones alike.
pub proof fn lemma_page_num_round_trip(a: u64)
    requires
        page_aligned(a),
    ensures
        (a as int / (PAGE_SIZE as int)) * (PAGE_SIZE as int) == a,
{
    assert((a as int / 4096) * 4096 == a) by (nonlinear_arith)
        requires
            a as int % 4096 == 0,
    ;
}

/// The reverse round trip: the first address of a page lies on that page,
/// so taking its page number gives the page back.  This is `addr` followed
/// by `floor` or `page_num`.
pub proof fn lemma_addr_round_trip(v: u64)
    requires
        v * PAGE_SIZE <= u64::MAX,
    ensures
        (v * PAGE_SIZE) as int / (PAGE_SIZE as int) == v,
        page_aligned((v * PAGE_SIZE) as u64),
{
    assert((v as int * 4096) / 4096 == v && (v as int * 4096) % 4096 == 0) by (nonlinear_arith);
}

} // verus!
