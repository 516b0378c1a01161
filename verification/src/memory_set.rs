//! Mapping sets: contiguous virtual-page ranges with one mapping policy
//! each, grouped into the address space of a whole task or of the kernel.
//!
//! An area maps every page of its range either identically (physical page
//! number equal to the virtual one, used for the kernel) or onto freshly
//! leased frames it then owns (used for user stacks and data).  A memory
//! set owns one page table and a list of areas; building the kernel set
//! lays one identical area over each image section and one over the rest
//! of physical memory.

use vstd::prelude::*;

use crate::address::PAGE_SIZE;
use crate::address::PPN_LIMIT;
use crate::address::PhysPageNum;
use crate::address::VPN_LIMIT;
use crate::address::VirtAddr;
use crate::address::VirtPageNum;
use crate::frame_allocator::StackFrameAllocator;
use crate::page_table::MapError;
use crate::page_table::PTEFlags;
use crate::page_table::PageTable;
use crate::page_table::PageTableEntry;
use crate::page_table::leaf_pte_bits;

verus! {

/// The R bit of an area permission: readable.
pub const MAP_PERM_READ: u8 = 0x02;

/// The W bit: writable.
pub const MAP_PERM_WRITE: u8 = 0x04;

/// The X bit: executable.
pub const MAP_PERM_EXE: u8 = 0x08;

/// The U bit: accessible from user mode.
pub const MAP_PERM_U: u8 = 0x10;

/// A named-bit set of area permissions, laid out on the same bit positions
/// as the page-table-entry flags they become.
#[derive(Copy, Clone, PartialEq, Eq, Structural, Debug)]
pub struct MapPermission {
    pub bits: u8,
}

impl MapPermission {
    /// The set holding exactly the given bits.
    pub fn from_bits(bits: u8) -> (r: Self)
        ensures
            r.bits == bits,
    {
        MapPermission { bits }
    }

    /// The union of two sets.
    pub fn union(self, other: Self) -> (r: Self)
        ensures
            r.bits == self.bits | other.bits,
    {
        MapPermission { bits: self.bits | other.bits }
    }
}

/// How an area chooses the physical page for each of its virtual pages.
#[derive(Copy, Clone, PartialEq, Eq, Structural, Debug)]
pub enum MapType {
    /// Physical page number equal to the virtual one.
    Identical,
    /// A freshly leased frame per page, owned by the area.
    Framed,
}

/// A contiguous range of virtual pages `[start, end)` with one mapping
/// policy and one permission set.  In `Framed` mode, once mapped, the frame
/// for page `start + i` sits at position `i` of the owned frame list; the
/// frames are pairwise distinct, leased, and returned on unmap.
pub struct MapArea {
    vpn_range: (VirtPageNum, VirtPageNum),
    data_frames: Vec<u64>,
    map_type: MapType,
    map_permission: MapPermission,
}

impl MapArea {
    /// First page of the range.
    pub closed spec fn start_vpn(self) -> u64 {
        self.vpn_range.0.0
    }

    /// One past the last page of the range.
    pub closed spec fn end_vpn(self) -> u64 {
        self.vpn_range.1.0
    }

    /// The mapping policy.
    pub closed spec fn mode(self) -> MapType {
        self.map_type
    }

    /// The permission bits.
    pub closed spec fn perm(self) -> u8 {
        self.map_permission.bits
    }

    /// The owned frames, one per mapped page in range order.
    pub closed spec fn frames_seq(self) -> Seq<u64> {
        self.data_frames@
    }

    /// The physical page the area assigns to virtual page `v` once mapped.
    pub open spec fn target_ppn(self, v: u64) -> u64 {
        if self.mode() == MapType::Identical {
            v
        } else {
            self.frames_seq()[v - self.start_vpn()]
        }
    }

    /// An unmapped area over the pages touched by `[start_addr, end_addr)`:
    /// the start address rounded down to its page, the end rounded up.
    pub fn new(
        start_virtual_addr: VirtAddr,
        end_virtual_addr: VirtAddr,
        map_type: MapType,
        map_permission: MapPermission,
    ) -> (r: Self)
        requires
            end_virtual_addr.0 + PAGE_SIZE - 1 <= u64::MAX,
        ensures
            r.start_vpn() == start_virtual_addr.0 as int / PAGE_SIZE as int,
            r.end_vpn() == (end_virtual_addr.0 + PAGE_SIZE - 1) as int / PAGE_SIZE as int,
            r.mode() == map_type,
            r.perm() == map_permission.bits,
            r.frames_seq().len() == 0,
    {
        let start_virtual_page_number = start_virtual_addr.floor();
        let end_vpn = end_virtual_addr.ceil();
        MapArea {
            vpn_range: (start_virtual_page_number, end_vpn),
            data_frames: Vec::new(),
            map_type,
            map_permission,
        }
    }

    /// Install every page of the range into `page_table`: the identical
    /// page for `Identical` mode, a freshly leased owned frame for
    /// `Framed`.  Each page gets the area's permissions plus the valid bit.
    /// Success is owed when the whole range was unmapped and the allocator
    /// holds three frames per page; a page already mapped or an exhausted
    /// allocator aborts mid-range with the table still well-formed.
    pub fn map(
        &mut self,
        page_table: &mut PageTable,
        allocator: &mut StackFrameAllocator,
    ) -> (r: Result<(), MapError>)
        requires
            old(self).frames_seq().len() == 0,
            old(self).start_vpn() <= old(self).end_vpn(),
            old(self).end_vpn() <= VPN_LIMIT,
            old(page_table).wf(),
            old(allocator).wf(),
            old(page_table).nodes_leased_by(*old(allocator)),
        ensures
            final(page_table).wf(),
            final(allocator).wf(),
            final(page_table).nodes_leased_by(*final(allocator)),
            final(page_table).spec_root() == old(page_table).spec_root(),
            final(allocator).limit() == old(allocator).limit(),
            forall|q: u64| old(allocator).is_leased(q) ==> final(allocator).is_leased(q),
            forall|q: u64|
                old(page_table).has_node_ppn(q) ==> final(page_table).has_node_ppn(q),
            forall|q: u64|
                final(page_table).has_node_ppn(q) && !old(page_table).has_node_ppn(q) ==> !old(allocator).is_leased(q),
            final(self).start_vpn() == old(self).start_vpn(),
            final(self).end_vpn() == old(self).end_vpn(),
            final(self).mode() == old(self).mode(),
            final(self).perm() == old(self).perm(),
            forall|w: u64|
                w < VPN_LIMIT && !(old(self).start_vpn() <= w < old(self).end_vpn()) ==> final(page_table).translate_spec(w) == old(page_table).translate_spec(w),
            match r {
                Ok(()) => {
                    &&& forall|v: u64|
                        old(self).start_vpn() <= v < old(self).end_vpn() ==> old(page_table).translate_spec(v) is None
                    &&& forall|v: u64|
                        old(self).start_vpn() <= v < old(self).end_vpn() ==> final(page_table).translate_spec(v) == Some(
                            (PageTableEntry {
                                bits: leaf_pte_bits(final(self).target_ppn(v), old(self).perm()),
                            }),
                        )
                    &&& final(self).frames_seq().len() == (if old(self).mode() == MapType::Framed {
                        final(self).end_vpn() - final(self).start_vpn()
                    } else {
                        0
                    })
                    &&& forall|x: int, y: int|
                        0 <= x < y < final(self).frames_seq().len() ==> final(self).frames_seq()[x] != final(self).frames_seq()[y]
                    &&& forall|x: int|
                        0 <= x < final(self).frames_seq().len() ==> final(allocator).is_leased(
                            #[trigger] final(self).frames_seq()[x],
                        ) && final(self).frames_seq()[x] < PPN_LIMIT && !final(page_table).has_node_ppn(final(self).frames_seq()[x])
                    &&& final(allocator).free_count() >= old(allocator).free_count() - 3 * (old(self).end_vpn() - old(self).start_vpn())
                },
                Err(MapError::AlreadyMapped) => exists|v: u64|
                    old(self).start_vpn() <= v < old(self).end_vpn() && old(page_table).translate_spec(v) is Some,
                Err(MapError::FrameExhausted) => true,
            },
            (forall|v: u64|
                old(self).start_vpn() <= v < old(self).end_vpn() ==> old(page_table).translate_spec(v) is None) && old(allocator).free_count() >= 3 * (old(self).end_vpn() - old(self).start_vpn()) ==> r is Ok,
    {
        let start = self.vpn_range.0.0;
        let end = self.vpn_range.1.0;
        let mut cur = start;
        while cur < end
            invariant
                start == self.start_vpn(),
                end == self.end_vpn(),
                end <= VPN_LIMIT,
                start <= cur <= end,
                forall|v: u64| start <= v < cur ==> old(page_table).translate_spec(v) is None,
                self.start_vpn() == old(self).start_vpn(),
                self.end_vpn() == old(self).end_vpn(),
                self.mode() == old(self).mode(),
                self.perm() == old(self).perm(),
                page_table.wf(),
                allocator.wf(),
                page_table.nodes_leased_by(*allocator),
                page_table.spec_root() == old(page_table).spec_root(),
                allocator.limit() == old(allocator).limit(),
                forall|q: u64| old(allocator).is_leased(q) ==> allocator.is_leased(q),
                forall|q: u64|
                    old(page_table).has_node_ppn(q) ==> page_table.has_node_ppn(q),
                forall|q: u64|
                    page_table.has_node_ppn(q) && !old(page_table).has_node_ppn(q) ==> !old(allocator).is_leased(q),
                self.frames_seq().len() == (if self.mode() == MapType::Framed {
                    cur - start
                } else {
                    0
                }),
                forall|x: int, y: int|
                    0 <= x < y < self.frames_seq().len() ==> self.frames_seq()[x]
                        != self.frames_seq()[y],
                forall|x: int|
                    0 <= x < self.frames_seq().len() ==> allocator.is_leased(
                        #[trigger] self.frames_seq()[x],
                    ) && self.frames_seq()[x] < PPN_LIMIT && !page_table.has_node_ppn(
                        self.frames_seq()[x],
                    ),
                forall|v: u64|
                    start <= v < cur ==> page_table.translate_spec(v) == Some(
                        (PageTableEntry { bits: leaf_pte_bits(self.target_ppn(v), self.perm()) }),
                    ),
                forall|w: u64|
                    w < VPN_LIMIT && !(start <= w < cur) ==> page_table.translate_spec(w) == old(page_table).translate_spec(w),
                allocator.free_count() >= old(allocator).free_count() - 3 * (cur - start),
            decreases end - cur,
        {
            let vpn = VirtPageNum(cur);
            let ghost frames_before = self.frames_seq();
            let ppn = match self.map_type {
                MapType::Identical => PhysPageNum(cur),
                MapType::Framed => match allocator.alloc_frame() {
                    None => {
                        proof {
                            assert(old(allocator).free_count() <= 3 * (cur - start));
                        }
                        return Err(MapError::FrameExhausted);
                    },
                    Some(f) => {
                        self.data_frames.push(f.0);
                        f
                    },
                },
            };
            let flags = PTEFlags::from_bits(self.map_permission.bits);
            match page_table.map(vpn, ppn, flags, allocator) {
                Ok(()) => {},
                Err(MapError::AlreadyMapped) => {
                    proof {
                        assert(page_table.translate_spec(cur) is Some);
                        assert(old(page_table).translate_spec(cur) is Some);
                    }
                    return Err(MapError::AlreadyMapped);
                },
                Err(MapError::FrameExhausted) => {
                    return Err(MapError::FrameExhausted);
                },
            }
            proof {
                assert(self.target_ppn(cur) == ppn.0);
                assert forall|v: u64| start <= v < cur + 1 implies page_table.translate_spec(v)
                    == Some(
                    (PageTableEntry { bits: leaf_pte_bits(self.target_ppn(v), self.perm()) }),
                ) by {
                    if v < cur {
                        assert(self.target_ppn(v) == (if self.mode() == MapType::Identical {
                            v
                        } else {
                            frames_before[v - start]
                        }));
                    }
                }
            }
            cur = cur + 1;
        }
        Ok(())
    }

    /// Remove every page of the range from `page_table` and, in `Framed`
    /// mode, return each owned frame to the allocator.  The whole range
    /// must currently carry this area's mappings and the recycle list must
    /// have room for the returned frames.
    pub fn unmap(&mut self, page_table: &mut PageTable, allocator: &mut StackFrameAllocator)
        requires
            old(page_table).wf(),
            old(allocator).wf(),
            old(self).end_vpn() <= VPN_LIMIT,
            old(self).start_vpn() <= old(self).end_vpn(),
            forall|v: u64|
                old(self).start_vpn() <= v < old(self).end_vpn() ==> old(page_table).translate_spec(v) is Some,
            old(self).mode() == MapType::Framed ==> {
                &&& old(self).frames_seq().len() == old(self).end_vpn() - old(self).start_vpn()
                &&& (forall|x: int, y: int|
                    0 <= x < y < old(self).frames_seq().len() ==> old(self).frames_seq()[x] != old(self).frames_seq()[y])
                &&& (forall|x: int|
                    0 <= x < old(self).frames_seq().len() ==> old(allocator).is_leased(
                        #[trigger] old(self).frames_seq()[x],
                    ))
                &&& old(allocator).recycled_seq().len() + (old(self).end_vpn() - old(self).start_vpn()) <= crate::frame_allocator::MAX_PHYSICAL_PAGES
            },
        ensures
            final(page_table).wf(),
            final(allocator).wf(),
            final(page_table).spec_root() == old(page_table).spec_root(),
            forall|q: u64|
                final(page_table).has_node_ppn(q) == old(page_table).has_node_ppn(q),
            forall|v: u64|
                old(self).start_vpn() <= v < old(self).end_vpn() ==> final(page_table).translate_spec(v) is None,
            forall|w: u64|
                w < VPN_LIMIT && !(old(self).start_vpn() <= w < old(self).end_vpn()) ==> final(page_table).translate_spec(w) == old(page_table).translate_spec(w),
            final(self).frames_seq().len() == 0,
            final(self).start_vpn() == old(self).start_vpn(),
            final(self).end_vpn() == old(self).end_vpn(),
            final(self).mode() == old(self).mode(),
            final(self).perm() == old(self).perm(),
            old(self).mode() == MapType::Framed ==> final(allocator).free_count() == old(allocator).free_count() + (old(self).end_vpn() - old(self).start_vpn()),
            old(self).mode() != MapType::Framed ==> *final(allocator) == *old(allocator),
    {
        let start = self.vpn_range.0.0;
        let end = self.vpn_range.1.0;
        let mut cur = start;
        let ghost frames0 = self.frames_seq();
        while cur < end
            invariant
                start == self.start_vpn(),
                end == self.end_vpn(),
                end <= VPN_LIMIT,
                start <= cur <= end,
                *self == *old(self),
                frames0 == self.frames_seq(),
                page_table.wf(),
                allocator.wf(),
                page_table.spec_root() == old(page_table).spec_root(),
                forall|q: u64|
                    page_table.has_node_ppn(q) == old(page_table).has_node_ppn(q),
                forall|v: u64| start <= v < cur ==> page_table.translate_spec(v) is None,
                forall|v: u64|
                    cur <= v < end ==> page_table.translate_spec(v) == old(page_table).translate_spec(v),
                forall|w: u64|
                    w < VPN_LIMIT && !(start <= w < cur) ==> page_table.translate_spec(w) == old(page_table).translate_spec(w),
                forall|v: u64| cur <= v < end ==> page_table.translate_spec(v) is Some,
                self.mode() == MapType::Framed ==> {
                    &&& frames0.len() == end - start
                    &&& (forall|x: int, y: int| 0 <= x < y < frames0.len() ==> frames0[x] != frames0[y])
                    &&& old(allocator).recycled_seq().len() + (end - start)
                        <= crate::frame_allocator::MAX_PHYSICAL_PAGES
                    &&& (forall|x: int|
                        cur - start <= x < frames0.len() ==> allocator.is_leased(
                            #[trigger] frames0[x],
                        ))
                    &&& allocator.recycled_seq().len() == old(allocator).recycled_seq().len() + (
                    cur - start)
                    &&& allocator.free_count() == old(allocator).free_count() + (cur - start)
                    &&& allocator.limit() == old(allocator).limit()
                },
                self.mode() != MapType::Framed ==> *allocator == *old(allocator),
            decreases end - cur,
        {
            let vpn = VirtPageNum(cur);
            match page_table.unmap(vpn) {
                Ok(()) => {},
                Err(_) => {
                    proof {
                        assert(false);
                    }
                },
            }
            let is_framed = match self.map_type {
                MapType::Framed => true,
                MapType::Identical => false,
            };
            if is_framed {
                let idx = (cur - start) as usize;
                let f = self.data_frames[idx];
                match allocator.dealloc_frame(PhysPageNum(f)) {
                    Ok(()) => {},
                    Err(_) => {
                        proof {
                            assert(false);
                        }
                    },
                }
                proof {
                    assert forall|x: int|
                        cur + 1 - start <= x < frames0.len() implies allocator.is_leased(
                        #[trigger] frames0[x],
                    ) by {
                        assert(frames0[x] != frames0[cur - start]);
                    }
                }
            }
            cur = cur + 1;
        }
        self.data_frames = Vec::new();
    }
}


/// Exclusive upper bound of usable physical memory on this machine.
pub const MEMORY_END: u64 = 0x8800_0000;

/// The page holding byte address `a`.
pub open spec fn page_floor(a: u64) -> int {
    a as int / (PAGE_SIZE as int)
}

/// The first page boundary at or above byte address `a`, as a page number.
pub open spec fn page_ceil(a: u64) -> int {
    (a + PAGE_SIZE - 1) as int / (PAGE_SIZE as int)
}

/// The section boundaries the linker fixes for the kernel image, plus the
/// end of the image; each section is mapped identically over itself.
#[derive(Copy, Clone, PartialEq, Eq, Structural, Debug)]
pub struct KernelLayout {
    pub stext: u64,
    pub etext: u64,
    pub srodata: u64,
    pub erodata: u64,
    pub sdata: u64,
    pub edata: u64,
    pub sbss_with_stack: u64,
    pub ebss: u64,
    pub ekernel: u64,
}

/// Pages covered by the first `i` areas, counted with multiplicity.
pub open spec fn total_pages_prefix(areas: Seq<MapArea>, i: int) -> int
    decreases i,
{
    if i <= 0 {
        0
    } else {
        total_pages_prefix(areas, i - 1) + (areas[i - 1].end_vpn() - areas[i - 1].start_vpn())
    }
}

/// One full address space: an owned page table and the owned areas mapped
/// into it.  Areas must not overlap.
pub struct MemorySet {
    page_table: PageTable,
    areas: Vec<MapArea>,
}

impl MemorySet {
    /// The owned page table.
    pub closed spec fn table(self) -> PageTable {
        self.page_table
    }

    /// The owned areas, in insertion order.
    pub closed spec fn areas_seq(self) -> Seq<MapArea> {
        self.areas@
    }

    /// Whether some area of `areas` covers virtual page `w`.
    pub open spec fn covered(areas: Seq<MapArea>, w: u64) -> bool {
        exists|a: int|
            0 <= a < areas.len() && (#[trigger] areas[a]).start_vpn() <= w < areas[a].end_vpn()
    }

    /// An address space with an empty page table and no areas: it
    /// translates nothing.  Fails exactly when no frame is left for the
    /// root node.
    pub fn new_bare(allocator: &mut StackFrameAllocator) -> (r: Result<MemorySet, MapError>)
        requires
            old(allocator).wf(),
        ensures
            final(allocator).wf(),
            r is Ok <==> old(allocator).free_count() > 0,
            match r {
                Ok(ms) => {
                    &&& ms.table().wf()
                    &&& ms.areas_seq().len() == 0
                    &&& forall|vpn: u64| ms.table().translate_spec(vpn) is None
                    &&& ms.table().nodes_leased_by(*final(allocator))
                    &&& forall|q: u64|
                        old(allocator).is_leased(q) ==> final(allocator).is_leased(q)
                    &&& final(allocator).free_count() == old(allocator).free_count() - 1
                },
                Err(e) => e == MapError::FrameExhausted && *final(allocator) == *old(allocator),
            },
    {
        match PageTable::new(allocator) {
            Ok(pt) => Ok(MemorySet { page_table: pt, areas: Vec::new() }),
            Err(e) => Err(e),
        }
    }

    /// Hand an area to the set; it is installed by `map_all_area`.  The
    /// data argument is carried for areas that will be loaded with content,
    /// unused at this stage.
    pub fn push(&mut self, map_area: MapArea, _data: Option<&[u8]>)
        ensures
            final(self).areas_seq() == old(self).areas_seq().push(map_area),
            final(self).table() == old(self).table(),
    {
        self.areas.push(map_area);
    }

    /// Read-only lookup in the owned page table.
    pub fn translate(&self, vpn: VirtPageNum) -> (r: Option<PageTableEntry>)
        requires
            self.table().wf(),
        ensures
            r == self.table().translate_spec(vpn.0),
    {
        self.page_table.translate(vpn)
    }

    /// The translation-control register value of the owned page table.
    pub fn token(&self) -> (r: u64)
        requires
            self.table().wf(),
        ensures
            r == 0x8000_0000_0000_0000u64 + self.table().spec_root(),
    {
        self.page_table.token()
    }

    /// Install every pushed area into the owned page table, in order.
    /// Success is owed when the areas are pairwise disjoint, their whole
    /// footprint is unmapped, and the allocator holds three frames per
    /// page; then every page of every area translates to that area's
    /// target with its permissions plus the valid bit.
    pub fn map_all_area(&mut self, allocator: &mut StackFrameAllocator) -> (r: Result<(), MapError>)
        requires
            old(self).table().wf(),
            old(allocator).wf(),
            old(self).table().nodes_leased_by(*old(allocator)),
            forall|a: int|
                0 <= a < old(self).areas_seq().len() ==> {
                    &&& (#[trigger] old(self).areas_seq()[a]).frames_seq().len() == 0
                    &&& old(self).areas_seq()[a].start_vpn() <= old(self).areas_seq()[a].end_vpn()
                    &&& old(self).areas_seq()[a].end_vpn() <= VPN_LIMIT
                },
        ensures
            final(self).table().wf(),
            final(allocator).wf(),
            final(self).table().nodes_leased_by(*final(allocator)),
            final(self).table().spec_root() == old(self).table().spec_root(),
            final(self).areas_seq().len() == old(self).areas_seq().len(),
            forall|a: int|
                0 <= a < old(self).areas_seq().len() ==> {
                    &&& (#[trigger] final(self).areas_seq()[a]).start_vpn() == old(self).areas_seq()[a].start_vpn()
                    &&& final(self).areas_seq()[a].end_vpn() == old(self).areas_seq()[a].end_vpn()
                    &&& final(self).areas_seq()[a].mode() == old(self).areas_seq()[a].mode()
                    &&& final(self).areas_seq()[a].perm() == old(self).areas_seq()[a].perm()
                },
            forall|q: u64| old(allocator).is_leased(q) ==> final(allocator).is_leased(q),
            forall|w: u64|
                w < VPN_LIMIT && !Self::covered(old(self).areas_seq(), w) ==> final(self).table().translate_spec(w) == old(self).table().translate_spec(w),
            match r {
                Ok(()) => {
                    &&& forall|a: int, v: u64|
                        #![trigger final(self).areas_seq()[a], final(self).table().translate_spec(v)]
                        0 <= a < final(self).areas_seq().len() && final(self).areas_seq()[a].start_vpn() <= v < final(self).areas_seq()[a].end_vpn()
                            ==> final(self).table().translate_spec(v) == Some(
                            (PageTableEntry {
                                bits: leaf_pte_bits(
                                    final(self).areas_seq()[a].target_ppn(v),
                                    final(self).areas_seq()[a].perm(),
                                ),
                            }),
                        )
                    &&& forall|a: int, v: u64|
                        #![trigger old(self).areas_seq()[a], old(self).table().translate_spec(v)]
                        0 <= a < old(self).areas_seq().len() && old(self).areas_seq()[a].start_vpn() <= v < old(self).areas_seq()[a].end_vpn()
                            ==> old(self).table().translate_spec(v) is None
                },
                Err(_) => true,
            },
            r == Err::<(), MapError>(MapError::AlreadyMapped) ==> ((exists|a: int, v: u64|
                #![trigger old(self).areas_seq()[a], old(self).table().translate_spec(v)]
                0 <= a < old(self).areas_seq().len() && old(self).areas_seq()[a].start_vpn() <= v
                    < old(self).areas_seq()[a].end_vpn() && old(self).table().translate_spec(v)
                    is Some) || (exists|a: int, b: int|
                #![trigger old(self).areas_seq()[a], old(self).areas_seq()[b]]
                0 <= a < b < old(self).areas_seq().len() && !(old(self).areas_seq()[a].end_vpn()
                    <= old(self).areas_seq()[b].start_vpn() || old(self).areas_seq()[b].end_vpn()
                    <= old(self).areas_seq()[a].start_vpn()))),
            (forall|a: int, v: u64|
                #![trigger old(self).areas_seq()[a], old(self).table().translate_spec(v)]
                0 <= a < old(self).areas_seq().len() && old(self).areas_seq()[a].start_vpn() <= v < old(self).areas_seq()[a].end_vpn() ==> old(self).table().translate_spec(v) is None) && (forall|a: int, b: int|
                0 <= a < b < old(self).areas_seq().len() ==> (#[trigger] old(self).areas_seq()[a]).end_vpn() <= (#[trigger] old(self).areas_seq()[b]).start_vpn()
                    || old(self).areas_seq()[b].end_vpn() <= old(self).areas_seq()[a].start_vpn())
                && old(allocator).free_count() >= 3 * total_pages_prefix(
                old(self).areas_seq(),
                old(self).areas_seq().len() as int,
            ) ==> (r is Ok),
    {
        let n = self.areas.len();
        let mut i: usize = 0;
        while i < n
            invariant
                n == self.areas@.len(),
                n == old(self).areas_seq().len(),
                0 <= i <= n,
                self.table().wf(),
                allocator.wf(),
                self.table().nodes_leased_by(*allocator),
                self.table().spec_root() == old(self).table().spec_root(),
                forall|q: u64| old(allocator).is_leased(q) ==> allocator.is_leased(q),
                forall|a: int| i <= a < n ==> self.areas@[a] == old(self).areas_seq()[a],
                forall|a: int|
                    i <= a < n ==> (#[trigger] self.areas@[a]).frames_seq().len() == 0,
                forall|a: int|
                    0 <= a < n ==> {
                        &&& (#[trigger] self.areas@[a]).start_vpn() == old(self).areas_seq()[a].start_vpn()
                        &&& self.areas@[a].end_vpn() == old(self).areas_seq()[a].end_vpn()
                        &&& self.areas@[a].mode() == old(self).areas_seq()[a].mode()
                        &&& self.areas@[a].perm() == old(self).areas_seq()[a].perm()
                        &&& self.areas@[a].start_vpn() <= self.areas@[a].end_vpn()
                        &&& self.areas@[a].end_vpn() <= VPN_LIMIT
                    },
                forall|w: u64|
                    w < VPN_LIMIT && !Self::covered(old(self).areas_seq().take(i as int), w)
                        ==> self.table().translate_spec(w) == old(self).table().translate_spec(w),
                forall|a: int, v: u64|
                    #![trigger self.areas@[a], self.table().translate_spec(v)]
                    0 <= a < i && self.areas@[a].start_vpn() <= v
                        < self.areas@[a].end_vpn() ==> self.table().translate_spec(v) == Some(
                        (PageTableEntry {
                            bits: leaf_pte_bits(
                                self.areas@[a].target_ppn(v),
                                self.areas@[a].perm(),
                            ),
                        }),
                    ),
                forall|a: int, v: u64|
                    #![trigger self.areas@[a], old(self).table().translate_spec(v)]
                    0 <= a < i && self.areas@[a].start_vpn() <= v
                        < self.areas@[a].end_vpn() ==> old(self).table().translate_spec(v)
                        is None,
                allocator.free_count() >= old(allocator).free_count() - 3 * total_pages_prefix(
                    old(self).areas_seq(),
                    i as int,
                ),
            decreases n - i,
        {
            let ghost pt_before = self.table();
            let ghost alloc_before = *allocator;
            let ghost areas_before = self.areas@;
            let area = &mut self.areas[i];
            let res = area.map(&mut self.page_table, allocator);
            proof {
                assert(total_pages_prefix(old(self).areas_seq(), i as int + 1)
                    == total_pages_prefix(old(self).areas_seq(), i as int) + (old(self).areas_seq()[i as int].end_vpn() - old(self).areas_seq()[i as int].start_vpn()));
            }
            match res {
                Ok(()) => {},
                Err(e) => {
                    proof {
                        if e == MapError::AlreadyMapped {
                            let v = choose|v: u64|
                                areas_before[i as int].start_vpn() <= v < areas_before[
                                    i as int].end_vpn() && pt_before.translate_spec(v) is Some;
                            assert(old(self).areas_seq()[i as int].start_vpn() <= v < old(self).areas_seq()[i as int].end_vpn());
                            if !Self::covered(old(self).areas_seq().take(i as int), v) {
                                assert(pt_before.translate_spec(v) == old(self).table().translate_spec(v));
                                assert(old(self).table().translate_spec(v) is Some);
                            } else {
                                let aa = choose|aa: int|
                                    0 <= aa < i && (#[trigger] old(self).areas_seq().take(
                                        i as int,
                                    )[aa]).start_vpn() <= v < old(self).areas_seq().take(
                                        i as int,
                                    )[aa].end_vpn();
                                assert(0 <= aa && aa < i as int && (i as int) < old(self).areas_seq().len());
                                assert(!(old(self).areas_seq()[aa].end_vpn() <= old(self).areas_seq()[i as int].start_vpn() || old(self).areas_seq()[i as int].end_vpn() <= old(self).areas_seq()[aa].start_vpn()));
                            }
                        }
                        assert forall|a: int| 0 <= a < old(self).areas_seq().len() implies (
                        #[trigger] old(self).areas_seq()[a]).start_vpn() <= old(self).areas_seq()[a].end_vpn() by {
                            assert(areas_before[a].start_vpn() == old(self).areas_seq()[a].start_vpn());
                            assert(areas_before[a].end_vpn() == old(self).areas_seq()[a].end_vpn());
                            assert(areas_before[a].start_vpn() <= areas_before[a].end_vpn());
                        }
                        lemma_total_prefix_bounds(old(self).areas_seq(), i as int);
                        lemma_total_prefix_bounds(old(self).areas_seq(), i as int + 1);
                    }
                    return Err(e);
                },
            }
            proof {
                assert forall|w: u64|
                    w < VPN_LIMIT && !Self::covered(
                        old(self).areas_seq().take(i as int + 1),
                        w,
                    ) implies self.table().translate_spec(w) == old(self).table().translate_spec(
                    w,
                ) by {
                    if Self::covered(old(self).areas_seq().take(i as int), w) {
                        let a = choose|a: int|
                            0 <= a < i && (#[trigger] old(self).areas_seq().take(
                                i as int,
                            )[a]).start_vpn() <= w < old(self).areas_seq().take(
                                i as int,
                            )[a].end_vpn();
                        assert(old(self).areas_seq().take(i as int + 1)[a] == old(self).areas_seq().take(i as int)[a]);
                        assert(Self::covered(old(self).areas_seq().take(i as int + 1), w));
                    } else {
                        assert(!(old(self).areas_seq()[i as int].start_vpn() <= w < old(self).areas_seq()[i as int].end_vpn())) by {
                            if old(self).areas_seq()[i as int].start_vpn() <= w < old(self).areas_seq()[i as int].end_vpn() {
                                assert(old(self).areas_seq().take(i as int + 1)[i as int] == old(self).areas_seq()[i as int]);
                                assert(Self::covered(old(self).areas_seq().take(i as int + 1), w));
                            }
                        }
                    }
                }
                assert forall|a: int, v: u64|
                    #![trigger self.areas@[a], self.table().translate_spec(v)]
                    0 <= a < i + 1 && self.areas@[a].start_vpn() <= v
                        < self.areas@[a].end_vpn() implies self.table().translate_spec(v) == Some(
                    (PageTableEntry {
                        bits: leaf_pte_bits(self.areas@[a].target_ppn(v), self.areas@[a].perm()),
                    }),
                ) by {
                    if a < i {
                        assert(self.areas@[a] == areas_before[a]);
                        assert(pt_before.translate_spec(v) == Some(
                            (PageTableEntry {
                                bits: leaf_pte_bits(
                                    self.areas@[a].target_ppn(v),
                                    self.areas@[a].perm(),
                                ),
                            }),
                        ));
                        assert(pt_before.translate_spec(v) is Some);
                        assert(!(self.areas@[i as int].start_vpn() <= v < self.areas@[
                            i as int].end_vpn()));
                    }
                }
                assert forall|a: int, v: u64|
                    #![trigger self.areas@[a], old(self).table().translate_spec(v)]
                    0 <= a < i + 1 && self.areas@[a].start_vpn() <= v
                        < self.areas@[a].end_vpn() implies old(self).table().translate_spec(v)
                    is None by {
                    if a == i {
                        assert(!Self::covered(old(self).areas_seq().take(i as int), v) ==> old(self).table().translate_spec(v) == pt_before.translate_spec(v));
                        if Self::covered(old(self).areas_seq().take(i as int), v) {
                            let aa = choose|aa: int|
                                0 <= aa < i && (#[trigger] old(self).areas_seq().take(
                                    i as int,
                                )[aa]).start_vpn() <= v < old(self).areas_seq().take(
                                    i as int,
                                )[aa].end_vpn();
                            assert(self.areas@[aa] == areas_before[aa]);
                            assert(pt_before.translate_spec(v) is Some);
                        }
                    }
                }
            }
            i = i + 1;
        }
        proof {
            assert(old(self).areas_seq().take(n as int) =~= old(self).areas_seq());
            assert forall|a: int, v: u64|
                #![trigger old(self).areas_seq()[a], old(self).table().translate_spec(v)]
                0 <= a < n && old(self).areas_seq()[a].start_vpn() <= v < old(self).areas_seq()[a].end_vpn() implies old(self).table().translate_spec(v) is None by {
                assert(self.areas@[a].start_vpn() == old(self).areas_seq()[a].start_vpn());
                assert(self.areas@[a].end_vpn() == old(self).areas_seq()[a].end_vpn());
            }
        }
        Ok(())
    }
}

/// Page counts of prefixes only grow, and never outgrow the whole.
proof fn lemma_total_prefix_bounds(areas: Seq<MapArea>, i: int)
    requires
        0 <= i <= areas.len(),
        forall|a: int|
            0 <= a < areas.len() ==> (#[trigger] areas[a]).start_vpn() <= areas[a].end_vpn(),
    ensures
        total_pages_prefix(areas, i) <= total_pages_prefix(areas, areas.len() as int),
        total_pages_prefix(areas, i) >= 0,
    decreases areas.len() - i,
{
    if i < areas.len() {
        lemma_total_prefix_bounds(areas, i + 1);
    }
    if i > 0 {
        lemma_total_prefix_nonneg(areas, i);
    }
}

proof fn lemma_total_prefix_nonneg(areas: Seq<MapArea>, i: int)
    requires
        0 <= i <= areas.len(),
        forall|a: int|
            0 <= a < areas.len() ==> (#[trigger] areas[a]).start_vpn() <= areas[a].end_vpn(),
    ensures
        total_pages_prefix(areas, i) >= 0,
    decreases i,
{
    if i > 0 {
        lemma_total_prefix_nonneg(areas, i - 1);
    }
}


/// Readable and executable: the permissions of the kernel text section.
pub const PERM_RX: u8 = 0x0a;

/// Readable only: the permissions of the read-only data section.
pub const PERM_R: u8 = 0x02;

/// Readable and writable: the permissions of the data sections and of the
/// mapped remainder of physical memory.
pub const PERM_RW: u8 = 0x06;

/// Pages the five kernel areas cover, counted with multiplicity.
pub open spec fn kernel_pages(l: KernelLayout) -> int {
    (page_ceil(l.etext) - page_floor(l.stext)) + (page_ceil(l.erodata) - page_floor(l.srodata)) + (
    page_ceil(l.edata) - page_floor(l.sdata)) + (page_ceil(l.ebss) - page_floor(l.sbss_with_stack))
        + (page_ceil(MEMORY_END) - page_floor(l.ekernel))
}

/// How rounding an address to page boundaries behaves.
proof fn lemma_page_bounds(a: u64)
    by (nonlinear_arith)
    ensures
        0 <= page_floor(a),
        page_floor(a) * (PAGE_SIZE as int) <= a,
        a <= page_ceil(a) * (PAGE_SIZE as int),
        page_floor(a) <= page_ceil(a),
        page_ceil(a) <= a as int / (PAGE_SIZE as int) + 1,
{
}

/// Rounding to page boundaries keeps order.
proof fn lemma_page_mono(a: u64, b: u64)
    by (nonlinear_arith)
    requires
        a <= b,
    ensures
        page_floor(a) <= page_floor(b),
        page_ceil(a) <= page_ceil(b),
{
}

impl MemorySet {
    /// The kernel's own address space: one identical area per image
    /// section — text readable and executable, read-only data readable,
    /// initialised data and zero-initialised data (with the boot stack)
    /// readable and writable — plus one readable-writable identical area
    /// from the end of the image over the rest of physical memory, all
    /// installed into a fresh page table.  The section ranges must sit in
    /// order on disjoint pages.  Success is owed when the allocator holds
    /// one frame for the root and three per mapped page.
    pub fn new_kernel(layout: &KernelLayout, allocator: &mut StackFrameAllocator) -> (r: Result<
        MemorySet,
        MapError,
    >)
        requires
            old(allocator).wf(),
            layout.stext <= layout.etext,
            page_ceil(layout.etext) <= page_floor(layout.srodata),
            layout.srodata <= layout.erodata,
            page_ceil(layout.erodata) <= page_floor(layout.sdata),
            layout.sdata <= layout.edata,
            page_ceil(layout.edata) <= page_floor(layout.sbss_with_stack),
            layout.sbss_with_stack <= layout.ebss,
            page_ceil(layout.ebss) <= page_floor(layout.ekernel),
            layout.ekernel <= MEMORY_END,
        ensures
            final(allocator).wf(),
            match r {
                Ok(ms) => {
                    &&& ms.table().wf()
                    &&& ms.table().nodes_leased_by(*final(allocator))
                    &&& ms.areas_seq().len() == 5
                    &&& forall|v: u64|
                        page_floor(layout.stext) <= v < page_ceil(layout.etext)
                            ==> #[trigger] ms.table().translate_spec(v) == Some(
                            (PageTableEntry { bits: leaf_pte_bits(v, PERM_RX) }),
                        )
                    &&& forall|v: u64|
                        page_floor(layout.srodata) <= v < page_ceil(layout.erodata)
                            ==> #[trigger] ms.table().translate_spec(v) == Some(
                            (PageTableEntry { bits: leaf_pte_bits(v, PERM_R) }),
                        )
                    &&& forall|v: u64|
                        page_floor(layout.sdata) <= v < page_ceil(layout.edata)
                            ==> #[trigger] ms.table().translate_spec(v) == Some(
                            (PageTableEntry { bits: leaf_pte_bits(v, PERM_RW) }),
                        )
                    &&& forall|v: u64|
                        page_floor(layout.sbss_with_stack) <= v < page_ceil(layout.ebss)
                            ==> #[trigger] ms.table().translate_spec(v) == Some(
                            (PageTableEntry { bits: leaf_pte_bits(v, PERM_RW) }),
                        )
                    &&& forall|v: u64|
                        page_floor(layout.ekernel) <= v < page_ceil(MEMORY_END)
                            ==> #[trigger] ms.table().translate_spec(v) == Some(
                            (PageTableEntry { bits: leaf_pte_bits(v, PERM_RW) }),
                        )
                },
                Err(e) => e == MapError::FrameExhausted,
            },
            old(allocator).free_count() >= 1 + 3 * kernel_pages(*layout) ==> r is Ok,
    {
        proof {
            lemma_page_bounds(layout.stext);
            lemma_page_bounds(layout.etext);
            lemma_page_bounds(layout.srodata);
            lemma_page_bounds(layout.erodata);
            lemma_page_bounds(layout.sdata);
            lemma_page_bounds(layout.edata);
            lemma_page_bounds(layout.sbss_with_stack);
            lemma_page_bounds(layout.ebss);
            lemma_page_bounds(layout.ekernel);
            lemma_page_bounds(MEMORY_END);
            lemma_page_mono(layout.stext, layout.etext);
            lemma_page_mono(layout.srodata, layout.erodata);
            lemma_page_mono(layout.sdata, layout.edata);
            lemma_page_mono(layout.sbss_with_stack, layout.ebss);
            lemma_page_mono(layout.ekernel, MEMORY_END);
        }
        let mut memory_set = match MemorySet::new_bare(allocator) {
            Ok(ms) => ms,
            Err(e) => {
                return Err(e);
            },
        };
        memory_set.push(
            MapArea::new(
                VirtAddr(layout.stext),
                VirtAddr(layout.etext),
                MapType::Identical,
                MapPermission::from_bits(PERM_RX),
            ),
            None,
        );
        memory_set.push(
            MapArea::new(
                VirtAddr(layout.srodata),
                VirtAddr(layout.erodata),
                MapType::Identical,
                MapPermission::from_bits(PERM_R),
            ),
            None,
        );
        memory_set.push(
            MapArea::new(
                VirtAddr(layout.sdata),
                VirtAddr(layout.edata),
                MapType::Identical,
                MapPermission::from_bits(PERM_RW),
            ),
            None,
        );
        memory_set.push(
            MapArea::new(
                VirtAddr(layout.sbss_with_stack),
                VirtAddr(layout.ebss),
                MapType::Identical,
                MapPermission::from_bits(PERM_RW),
            ),
            None,
        );
        memory_set.push(
            MapArea::new(
                VirtAddr(layout.ekernel),
                VirtAddr(MEMORY_END),
                MapType::Identical,
                MapPermission::from_bits(PERM_RW),
            ),
            None,
        );
        let ghost areas5 = memory_set.areas_seq();
        proof {
            assert(areas5.len() == 5);
            assert(total_pages_prefix(areas5, 5) == kernel_pages(*layout)) by {
                assert(total_pages_prefix(areas5, 0) == 0);
                assert(total_pages_prefix(areas5, 1) == total_pages_prefix(areas5, 0) + (
                areas5[0].end_vpn() - areas5[0].start_vpn()));
                assert(total_pages_prefix(areas5, 2) == total_pages_prefix(areas5, 1) + (
                areas5[1].end_vpn() - areas5[1].start_vpn()));
                assert(total_pages_prefix(areas5, 3) == total_pages_prefix(areas5, 2) + (
                areas5[2].end_vpn() - areas5[2].start_vpn()));
                assert(total_pages_prefix(areas5, 4) == total_pages_prefix(areas5, 3) + (
                areas5[3].end_vpn() - areas5[3].start_vpn()));
                assert(total_pages_prefix(areas5, 5) == total_pages_prefix(areas5, 4) + (
                areas5[4].end_vpn() - areas5[4].start_vpn()));
            }
        }
        match memory_set.map_all_area(allocator) {
            Ok(()) => {
                proof {
                    assert forall|v: u64|
                        page_floor(layout.stext) <= v < page_ceil(layout.etext) implies
                        #[trigger] memory_set.table().translate_spec(v) == Some(
                        (PageTableEntry { bits: leaf_pte_bits(v, PERM_RX) }),
                    ) by {
                        assert(memory_set.areas_seq()[0].start_vpn() <= v < memory_set.areas_seq()[
                            0].end_vpn());
                        assert(memory_set.areas_seq()[0].target_ppn(v) == v);
                    }
                    assert forall|v: u64|
                        page_floor(layout.srodata) <= v < page_ceil(layout.erodata) implies
                        #[trigger] memory_set.table().translate_spec(v) == Some(
                        (PageTableEntry { bits: leaf_pte_bits(v, PERM_R) }),
                    ) by {
                        assert(memory_set.areas_seq()[1].start_vpn() <= v < memory_set.areas_seq()[
                            1].end_vpn());
                        assert(memory_set.areas_seq()[1].target_ppn(v) == v);
                    }
                    assert forall|v: u64|
                        page_floor(layout.sdata) <= v < page_ceil(layout.edata) implies
                        #[trigger] memory_set.table().translate_spec(v) == Some(
                        (PageTableEntry { bits: leaf_pte_bits(v, PERM_RW) }),
                    ) by {
                        assert(memory_set.areas_seq()[2].start_vpn() <= v < memory_set.areas_seq()[
                            2].end_vpn());
                        assert(memory_set.areas_seq()[2].target_ppn(v) == v);
                    }
                    assert forall|v: u64|
                        page_floor(layout.sbss_with_stack) <= v < page_ceil(layout.ebss) implies
                        #[trigger] memory_set.table().translate_spec(v) == Some(
                        (PageTableEntry { bits: leaf_pte_bits(v, PERM_RW) }),
                    ) by {
                        assert(memory_set.areas_seq()[3].start_vpn() <= v < memory_set.areas_seq()[
                            3].end_vpn());
                        assert(memory_set.areas_seq()[3].target_ppn(v) == v);
                    }
                    assert forall|v: u64|
                        page_floor(layout.ekernel) <= v < page_ceil(MEMORY_END) implies
                        #[trigger] memory_set.table().translate_spec(v) == Some(
                        (PageTableEntry { bits: leaf_pte_bits(v, PERM_RW) }),
                    ) by {
                        assert(memory_set.areas_seq()[4].start_vpn() <= v < memory_set.areas_seq()[
                            4].end_vpn());
                        assert(memory_set.areas_seq()[4].target_ppn(v) == v);
                    }
                }
                Ok(memory_set)
            },
            Err(e) => {
                proof {
                    if e == MapError::AlreadyMapped {
                        assert forall|a: int, b: int|
                            0 <= a < b < areas5.len() implies (#[trigger] areas5[a]).end_vpn() <= (
                            #[trigger] areas5[b]).start_vpn() || areas5[b].end_vpn()
                            <= areas5[a].start_vpn() by {}
                        assert(false);
                    }
                }
                Err(e)
            },
        }
    }
}

} // verus!
