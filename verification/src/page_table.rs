//! SV39 three-level radix page table: 512 entries per level, 4 KiB pages,
//! 44-bit physical page numbers.
//!
//! The table owns every frame backing one of its own nodes.  Each node is
//! held as a bounds-checked block of 512 entries, reached only by index,
//! and is tagged with the physical page number the allocator leased for it
//! and with its depth in the tree (level 0 is the root).  A walk reads the
//! root entry selected by the top nine bits of the virtual page number,
//! follows the physical page number stored there to the level-1 node, and
//! so on down to the leaf entry.

use vstd::prelude::*;

use crate::address::PPN_LIMIT;
use crate::address::PhysPageNum;
use crate::address::VPN_LIMIT;
use crate::address::VirtPageNum;
use crate::address::vpn_index;
use crate::frame_allocator::StackFrameAllocator;

verus! {

/// The V bit: the entry is usable.
pub const PTE_V: u8 = 0x01;

/// The R bit: readable.
pub const PTE_R: u8 = 0x02;

/// The W bit: writable.
pub const PTE_W: u8 = 0x04;

/// The X bit: executable.
pub const PTE_X: u8 = 0x08;

/// The U bit: accessible from user mode.
pub const PTE_U: u8 = 0x10;

/// The G bit: global mapping.
pub const PTE_G: u8 = 0x20;

/// The A bit: accessed.
pub const PTE_A: u8 = 0x40;

/// The D bit: dirty.
pub const PTE_D: u8 = 0x80;

/// A named-bit set of page-table-entry flags, with union, intersection and
/// containment defined over the exact hardware bit positions.
#[derive(Copy, Clone, PartialEq, Eq, Structural, Debug)]
pub struct PTEFlags {
    pub bits: u8,
}

impl PTEFlags {
    /// The set with no bits.
    pub fn empty() -> (r: Self)
        ensures
            r.bits == 0,
    {
        PTEFlags { bits: 0 }
    }

    /// The set holding exactly the given bits.
    pub fn from_bits(bits: u8) -> (r: Self)
        ensures
            r.bits == bits,
    {
        PTEFlags { bits }
    }

    /// The union of two sets.
    pub fn union(self, other: Self) -> (r: Self)
        ensures
            r.bits == self.bits | other.bits,
    {
        PTEFlags { bits: self.bits | other.bits }
    }

    /// The intersection of two sets.
    pub fn intersect(self, other: Self) -> (r: Self)
        ensures
            r.bits == self.bits & other.bits,
    {
        PTEFlags { bits: self.bits & other.bits }
    }

    /// Whether every bit of `other` is also in `self`.
    pub fn contains(self, other: Self) -> (r: bool)
        ensures
            r == (self.bits & other.bits == other.bits),
    {
        self.bits & other.bits == other.bits
    }

    /// Whether the set has no bits.
    pub fn is_empty(self) -> (r: bool)
        ensures
            r == (self.bits == 0),
    {
        self.bits == 0
    }
}

/// The physical page number stored in entry bits: bits [53:10].
pub open spec fn pte_ppn_bits(bits: u64) -> u64 {
    (bits >> 10) & 0xFFF_FFFF_FFFF
}

/// The flag bits stored in entry bits: the low eight.
pub open spec fn pte_flag_bits(bits: u64) -> u8 {
    bits as u8
}

/// The bits of a leaf entry mapping to `ppn` with the given flags plus V.
pub open spec fn leaf_pte_bits(ppn: u64, flags: u8) -> u64 {
    (ppn << 10) | ((flags | PTE_V) as u64)
}

/// One 64-bit slot of a page-table node: a physical page number in bits
/// [53:10] and flag bits below.  A slot is either empty (all zero) or a
/// single valid mapping or pointer.
#[derive(Copy, Clone, PartialEq, Eq, Structural, Debug)]
pub struct PageTableEntry {
    pub bits: u64,
}

impl PageTableEntry {
    /// Whether the V bit is set.
    pub open spec fn spec_valid(self) -> bool {
        self.bits & 1 == 1
    }

    /// The stored physical page number.
    pub open spec fn spec_ppn(self) -> u64 {
        pte_ppn_bits(self.bits)
    }

    /// The stored flag bits.
    pub open spec fn spec_flags(self) -> u8 {
        pte_flag_bits(self.bits)
    }

    /// An entry holding the given page number and exactly the given flags.
    pub fn new(ppn: PhysPageNum, flags: PTEFlags) -> (r: Self)
        requires
            ppn.0 < PPN_LIMIT,
        ensures
            r.bits == (ppn.0 << 10) | (flags.bits as u64),
            r.spec_ppn() == ppn.0,
            r.spec_flags() == flags.bits,
            r.spec_valid() <==> flags.bits & 1 == 1,
    {
        let bits: u64 = (ppn.0 << 10) | (flags.bits as u64);
        proof {
            lemma_pte_encode(ppn.0, flags.bits);
        }
        PageTableEntry { bits }
    }

    /// The empty entry.
    pub fn empty() -> (r: Self)
        ensures
            r.bits == 0,
            !r.spec_valid(),
    {
        proof {
            assert(0u64 & 1 == 0) by (bit_vector);
        }
        PageTableEntry { bits: 0 }
    }

    /// The stored physical page number.
    pub fn ppn(&self) -> (r: PhysPageNum)
        ensures
            r.0 == self.spec_ppn(),
            r.0 < PPN_LIMIT,
    {
        proof {
            let b = self.bits;
            assert((b >> 10) & 0xFFF_FFFF_FFFF < 0x1000_0000_0000) by (bit_vector);
        }
        PhysPageNum((self.bits >> 10) & 0xFFF_FFFF_FFFF)
    }

    /// The stored flag bits.
    pub fn flags(&self) -> (r: PTEFlags)
        ensures
            r.bits == self.spec_flags(),
    {
        proof {
            let b = self.bits;
            assert((b & 0xFF) as u8 == b as u8) by (bit_vector);
        }
        PTEFlags { bits: (self.bits & 0xFF) as u8 }
    }

    /// Whether the V bit is set.
    pub fn is_valid(&self) -> (r: bool)
        ensures
            r == self.spec_valid(),
    {
        self.bits & 1 == 1
    }
}

/// Encoding a page number below the 44-bit bound next to eight flag bits
/// loses nothing: both fields read back exactly.
proof fn lemma_pte_encode(p: u64, f: u8)
    by (bit_vector)
    requires
        p < 0x1000_0000_0000,
    ensures
        (((p << 10) | (f as u64)) >> 10) & 0xFFF_FFFF_FFFF == p,
        ((p << 10) | (f as u64)) as u8 == f,
        ((p << 10) | (f as u64)) & 1 == 1 <==> f & 1 == 1,
{
}

/// Failure of installing a mapping.
#[derive(Copy, Clone, PartialEq, Eq, Structural, Debug)]
pub enum MapError {
    /// The virtual page already carries a valid mapping; the policy is no
    /// silent remap.
    AlreadyMapped,
    /// The frame allocator could not supply the nodes the walk needed.
    FrameExhausted,
}

/// Failure of removing a mapping.
#[derive(Copy, Clone, PartialEq, Eq, Structural, Debug)]
pub enum UnmapError {
    /// The virtual page carries no valid mapping.
    NotMapped,
}

/// The position in a node sequence holding the given page number, scanning
/// from the back; nothing when no node carries it.
spec fn find_node_in(s: Seq<u64>, ppn: u64) -> Option<int>
    decreases s.len(),
{
    if s.len() == 0 {
        None
    } else if s[s.len() - 1] == ppn {
        Some(s.len() - 1)
    } else {
        find_node_in(s.drop_last(), ppn)
    }
}

proof fn lemma_find_node_props(s: Seq<u64>, ppn: u64)
    ensures
        match find_node_in(s, ppn) {
            Some(j) => 0 <= j < s.len() && s[j] == ppn,
            None => !s.contains(ppn),
        },
    decreases s.len(),
{
    if s.len() > 0 && s[s.len() - 1] != ppn {
        lemma_find_node_props(s.drop_last(), ppn);
        if find_node_in(s, ppn) is None {
            assert forall|i: int| 0 <= i < s.len() implies s[i] != ppn by {
                if i < s.len() - 1 {
                    assert(s.drop_last()[i] == s[i]);
                    assert(!s.drop_last().contains(ppn));
                }
            }
        }
    }
}

proof fn lemma_find_node_unique(s: Seq<u64>, ppn: u64, j: int)
    requires
        forall|a: int, b: int| 0 <= a < b < s.len() ==> s[a] != s[b],
        0 <= j < s.len(),
        s[j] == ppn,
    ensures
        find_node_in(s, ppn) == Some(j),
    decreases s.len(),
{
    if j == s.len() - 1 {
    } else {
        assert(s[s.len() - 1] != ppn);
        assert(s.drop_last()[j] == ppn);
        assert forall|a: int, b: int| 0 <= a < b < s.drop_last().len() implies s.drop_last()[a]
            != s.drop_last()[b] by {
            assert(s.drop_last()[a] == s[a] && s.drop_last()[b] == s[b]);
        }
        lemma_find_node_unique(s.drop_last(), ppn, j);
    }
}

proof fn lemma_find_node_push(s: Seq<u64>, ppn: u64, x: u64)
    ensures
        find_node_in(s.push(x), ppn) == if x == ppn {
            Some(s.len() as int)
        } else {
            find_node_in(s, ppn)
        },
{
    let t = s.push(x);
    assert(t.len() == s.len() + 1);
    assert(t[t.len() - 1] == x);
    assert(t.drop_last() =~= s);
}

/// One complete three-level translation structure.  Nodes live in flat
/// parallel vectors: node `j` is tagged by `node_ppns[j]` and
/// `node_levels[j]` and its 512 entries occupy `entries[512j .. 512j+512)`.
/// Node 0 is the root.
pub struct PageTable {
    root_ppn: u64,
    node_ppns: Vec<u64>,
    node_levels: Vec<u8>,
    entries: Vec<PageTableEntry>,
}

impl PageTable {
    /// Number of nodes the table owns.
    pub closed spec fn node_count(self) -> int {
        self.node_ppns@.len() as int
    }

    /// The physical page number of the root node.
    pub closed spec fn spec_root(self) -> u64 {
        self.root_ppn
    }

    /// Whether some node of the table sits on frame `p`.
    pub closed spec fn has_node_ppn(self, p: u64) -> bool {
        self.node_ppns@.contains(p)
    }

    /// Every frame backing a node of this table is leased from `a`.
    pub open spec fn nodes_leased_by(self, a: StackFrameAllocator) -> bool {
        forall|p: u64| self.has_node_ppn(p) ==> a.is_leased(p)
    }

    /// The entry at slot `k` of node `j`.
    spec fn entry_at(self, j: int, k: int) -> PageTableEntry {
        self.entries@[512 * j + k]
    }

    /// What a valid non-leaf entry must satisfy: it carries exactly the V
    /// bit, and the page number it stores is a node of this table one level
    /// deeper.
    spec fn pointer_ok(self, j: int, k: int) -> bool {
        let e = self.entry_at(j, k);
        &&& e.spec_flags() == PTE_V
        &&& match find_node_in(self.node_ppns@, e.spec_ppn()) {
            Some(c) => self.node_levels@[c] == self.node_levels@[j] + 1,
            None => false,
        }
    }

    /// Whether slot `k` of node `j` is a valid pointer out of a non-leaf
    /// node.
    spec fn is_pointer_slot(self, j: int, k: int) -> bool {
        &&& 0 <= j < self.node_count()
        &&& 0 <= k < 512
        &&& self.node_levels@[j] < 2
        &&& self.entry_at(j, k).spec_valid()
    }

    /// Internal consistency of the whole structure.
    pub closed spec fn wf(self) -> bool {
        let n = self.node_count();
        &&& 1 <= n
        &&& self.node_levels@.len() == n
        &&& self.entries@.len() == 512 * n
        &&& self.node_ppns@[0] == self.root_ppn
        &&& self.node_levels@[0] == 0
        &&& forall|j: int| 0 <= j < n ==> #[trigger] self.node_levels@[j] <= 2
        &&& forall|j: int| 0 <= j < n ==> #[trigger] self.node_ppns@[j] < PPN_LIMIT
        &&& forall|a: int, b: int| 0 <= a < b < n ==> self.node_ppns@[a] != self.node_ppns@[b]
        &&& forall|idx: int|
            0 <= idx < self.entries@.len() ==> (#[trigger] self.entries@[idx].bits) & 1 == 1
                || self.entries@[idx].bits == 0
        &&& forall|j: int, k: int| self.is_pointer_slot(j, k) ==> #[trigger] self.pointer_ok(j, k)
        &&& forall|j1: int, k1: int, j2: int, k2: int|
            #![trigger self.entry_at(j1, k1), self.entry_at(j2, k2)]
            self.is_pointer_slot(j1, k1) && self.is_pointer_slot(j2, k2) && (j1 != j2 || k1 != k2)
                ==> self.entry_at(j1, k1).spec_ppn() != self.entry_at(j2, k2).spec_ppn()
    }

    /// The level-2 node an address with root slot `i0` and mid slot `i1`
    /// reaches, when both pointer entries on the way are valid.
    spec fn path_leaf(self, i0: int, i1: int) -> Option<int> {
        let e0 = self.entry_at(0, i0);
        if !e0.spec_valid() {
            None
        } else {
            match find_node_in(self.node_ppns@, e0.spec_ppn()) {
                None => None,
                Some(f1) => {
                    let e1 = self.entry_at(f1, i1);
                    if !e1.spec_valid() {
                        None
                    } else {
                        find_node_in(self.node_ppns@, e1.spec_ppn())
                    }
                },
            }
        }
    }

    /// The result of a read-only walk for `vpn`: the leaf entry when every
    /// step down to it is valid, nothing otherwise.
    pub closed spec fn translate_spec(self, vpn: u64) -> Option<PageTableEntry> {
        match self.path_leaf(vpn_index(vpn, 0), vpn_index(vpn, 1)) {
            None => None,
            Some(f2) => {
                let e2 = self.entry_at(f2, vpn_index(vpn, 2));
                if !e2.spec_valid() {
                    None
                } else {
                    Some(e2)
                }
            },
        }
    }

    /// The node index holding page number `ppn`, if any.
    fn find_node(&self, ppn: u64) -> (r: Option<usize>)
        requires
            self.wf(),
        ensures
            match r {
                Some(j) => find_node_in(self.node_ppns@, ppn) == Some(j as int) && j
                    < self.node_count(),
                None => find_node_in(self.node_ppns@, ppn) is None,
            },
    {
        let n = self.node_ppns.len();
        let mut j: usize = 0;
        while j < n
            invariant
                self.wf(),
                n == self.node_count(),
                0 <= j <= n,
                forall|i: int| 0 <= i < j ==> self.node_ppns@[i] != ppn,
            decreases n - j,
        {
            if self.node_ppns[j] == ppn {
                proof {
                    lemma_find_node_unique(self.node_ppns@, ppn, j as int);
                }
                return Some(j);
            }
            j = j + 1;
        }
        proof {
            lemma_find_node_props(self.node_ppns@, ppn);
            if self.node_ppns@.contains(ppn) {
                let i = choose|i: int|
                    0 <= i < self.node_ppns@.len() && self.node_ppns@[i] == ppn;
                assert(self.node_ppns@[i] != ppn);
            }
        }
        None
    }

    /// A table holding only an empty root node on a freshly leased frame.
    /// Succeeds exactly when the allocator has a frame left; the new table
    /// translates nothing.
    pub fn new(allocator: &mut StackFrameAllocator) -> (r: Result<PageTable, MapError>)
        requires
            old(allocator).wf(),
        ensures
            final(allocator).wf(),
            r is Ok <==> old(allocator).free_count() > 0,
            match r {
                Ok(pt) => {
                    &&& pt.wf()
                    &&& pt.node_count() == 1
                    &&& forall|vpn: u64| pt.translate_spec(vpn) is None
                    &&& forall|p: u64| pt.has_node_ppn(p) <==> p == pt.spec_root()
                    &&& !old(allocator).is_leased(pt.spec_root())
                    &&& pt.nodes_leased_by(*final(allocator))
                    &&& forall|q: u64|
                        q != pt.spec_root() ==> final(allocator).is_leased(q) == old(
                            allocator,
                        ).is_leased(q)
                    &&& final(allocator).free_count() == old(allocator).free_count() - 1
                },
                Err(e) => e == MapError::FrameExhausted && *final(allocator) == *old(allocator),
            },
    {
        match allocator.alloc_frame() {
            None => Err(MapError::FrameExhausted),
            Some(p) => {
                let mut entries: Vec<PageTableEntry> = Vec::new();
                let mut i: usize = 0;
                while i < 512
                    invariant
                        0 <= i <= 512,
                        entries@.len() == i,
                        forall|t: int| 0 <= t < i ==> #[trigger] entries@[t].bits == 0,
                    decreases 512 - i,
                {
                    entries.push(PageTableEntry::empty());
                    i = i + 1;
                }
                let mut node_ppns: Vec<u64> = Vec::new();
                node_ppns.push(p.0);
                let mut node_levels: Vec<u8> = Vec::new();
                node_levels.push(0);
                let pt = PageTable { root_ppn: p.0, node_ppns, node_levels, entries };
                proof {
                    assert(0u64 & 1 == 0) by (bit_vector);
                    assert forall|vpn: u64| pt.translate_spec(vpn) is None by {
                        assert(pt.entry_at(0, vpn_index(vpn, 0)).bits == 0);
                    }
                    assert forall|q: u64| pt.has_node_ppn(q) implies q == p.0 by {
                        let i0 = choose|i0: int|
                            0 <= i0 < pt.node_ppns@.len() && pt.node_ppns@[i0] == q;
                    }
                    assert(pt.node_ppns@.contains(p.0)) by {
                        assert(pt.node_ppns@[0] == p.0);
                    }
                }
                Ok(pt)
            },
        }
    }

    /// The root node's physical page number.
    pub fn root_ppn(&self) -> (r: PhysPageNum)
        ensures
            r.0 == self.spec_root(),
    {
        PhysPageNum(self.root_ppn)
    }

    /// The value for the translation-control register: mode tag 8 (the
    /// three-level 39-bit scheme) in the top nibble, root page number below.
    pub fn token(&self) -> (r: u64)
        requires
            self.wf(),
        ensures
            r == 0x8000_0000_0000_0000u64 + self.spec_root(),
    {
        proof {
            assert(self.node_ppns@[0] == self.root_ppn);
            let rp = self.root_ppn;
            assert(rp < 0x1000_0000_0000 ==> (8u64 << 60) | rp == 0x8000_0000_0000_0000u64 + rp)
                by (bit_vector);
        }
        (8u64 << 60) | self.root_ppn
    }

    /// Read-only lookup: the leaf entry for `vpn` when the walk reaches a
    /// valid one.
    pub fn translate(&self, vpn: VirtPageNum) -> (r: Option<PageTableEntry>)
        requires
            self.wf(),
        ensures
            r == self.translate_spec(vpn.0),
    {
        let (i0, i1, i2) = vpn.indexes();
        let e0 = self.entries[i0];
        assert(e0 == self.entry_at(0, i0 as int));
        if !e0.is_valid() {
            return None;
        }
        match self.find_node(e0.ppn().0) {
            None => None,
            Some(f1) => {
                let total = self.entries.len();
                assert(512 * (f1 as int) + (i1 as int) < total);
                let e1 = self.entries[f1 * 512 + i1];
                assert(e1 == self.entry_at(f1 as int, i1 as int));
                if !e1.is_valid() {
                    return None;
                }
                match self.find_node(e1.ppn().0) {
                    None => None,
                    Some(f2) => {
                        assert(512 * (f2 as int) + (i2 as int) < total);
                        let e2 = self.entries[f2 * 512 + i2];
                        assert(e2 == self.entry_at(f2 as int, i2 as int));
                        if !e2.is_valid() {
                            return None;
                        }
                        Some(e2)
                    },
                }
            },
        }
    }
}


/// A pointer entry: the child's page number with exactly the V bit.
spec fn ptr_pte(p: u64) -> PageTableEntry {
    PageTableEntry { bits: (p << 10) | 1 }
}

/// Two flat entry indices agree only when node and slot both agree.
proof fn lemma_flat_index(j1: int, k1: int, j2: int, k2: int)
    by (nonlinear_arith)
    requires
        0 <= k1 < 512,
        0 <= k2 < 512,
        512 * j1 + k1 == 512 * j2 + k2,
    ensures
        j1 == j2,
        k1 == k2,
{
}

impl PageTable {
    /// Replace the entry at slot `k` of node `j`, leaving every other part
    /// of the table as it was.
    fn set_entry(&mut self, j: usize, k: usize, e: PageTableEntry)
        requires
            old(self).wf(),
            j < old(self).node_count(),
            k < 512,
        ensures
            final(self).root_ppn == old(self).root_ppn,
            final(self).node_ppns@ == old(self).node_ppns@,
            final(self).node_levels@ == old(self).node_levels@,
            final(self).entries@ == old(self).entries@.update(512 * j + k, e),
    {
        let total = self.entries.len();
        assert(512 * (j as int) + (k as int) < total);
        self.entries.set(j * 512 + k, e);
    }

    /// Append a node on frame `ppn` at the given depth, all entries empty.
    /// The new node hangs off nothing yet, so every translation is exactly
    /// as before.
    fn push_empty_node(&mut self, ppn: u64, level: u8)
        requires
            old(self).wf(),
            ppn < PPN_LIMIT,
            !old(self).has_node_ppn(ppn),
            1 <= level <= 2,
        ensures
            final(self).wf(),
            final(self).root_ppn == old(self).root_ppn,
            final(self).node_count() == old(self).node_count() + 1,
            final(self).node_ppns@ == old(self).node_ppns@.push(ppn),
            final(self).node_levels@ == old(self).node_levels@.push(level),
            final(self).entries@.len() == old(self).entries@.len() + 512,
            forall|i: int|
                0 <= i < old(self).entries@.len() ==> final(self).entries@[i] == old(self).entries@[i],
            forall|i: int|
                old(self).entries@.len() <= i < final(self).entries@.len() ==> final(self).entries@[i].bits == 0,
            forall|q: u64| final(self).has_node_ppn(q) <==> old(self).has_node_ppn(q) || q == ppn,
            forall|w: u64| final(self).translate_spec(w) == old(self).translate_spec(w),
            forall|i0: int, i1: int|
                0 <= i0 < 512 && 0 <= i1 < 512 ==> final(self).path_leaf(i0, i1) == old(self).path_leaf(i0, i1),
            find_node_in(final(self).node_ppns@, ppn) == Some(old(self).node_count()),
    {
        let ghost pre = *self;
        self.node_ppns.push(ppn);
        self.node_levels.push(level);
        let mut i: usize = 0;
        while i < 512
            invariant
                0 <= i <= 512,
                self.entries@.len() == pre.entries@.len() + i,
                self.root_ppn == pre.root_ppn,
                self.node_ppns@ == pre.node_ppns@.push(ppn),
                self.node_levels@ == pre.node_levels@.push(level),
                forall|t: int|
                    0 <= t < pre.entries@.len() ==> self.entries@[t] == pre.entries@[t],
                forall|t: int|
                    pre.entries@.len() <= t < self.entries@.len() ==> #[trigger] self.entries@[t].bits
                        == 0,
            decreases 512 - i,
        {
            self.entries.push(PageTableEntry::empty());
            i = i + 1;
        }
        proof {
            lemma_push_node(pre, *self, ppn, level);
            lemma_find_node_push(pre.node_ppns@, ppn, ppn);
        }
    }
}

/// Appending a fresh, empty node preserves well-formedness and changes no
/// translation: nothing points at the new node yet.
proof fn lemma_push_node(pre: PageTable, post: PageTable, p: u64, lvl: u8)
    requires
        pre.wf(),
        p < PPN_LIMIT,
        !pre.node_ppns@.contains(p),
        1 <= lvl <= 2,
        post.root_ppn == pre.root_ppn,
        post.node_ppns@ == pre.node_ppns@.push(p),
        post.node_levels@ == pre.node_levels@.push(lvl),
        post.entries@.len() == pre.entries@.len() + 512,
        forall|i: int| 0 <= i < pre.entries@.len() ==> post.entries@[i] == pre.entries@[i],
        forall|i: int|
            pre.entries@.len() <= i < post.entries@.len() ==> post.entries@[i].bits == 0,
    ensures
        post.wf(),
        forall|q: u64| post.has_node_ppn(q) <==> pre.has_node_ppn(q) || q == p,
        forall|w: u64| post.translate_spec(w) == pre.translate_spec(w),
        forall|i0: int, i1: int|
            0 <= i0 < 512 && 0 <= i1 < 512 ==> post.path_leaf(i0, i1) == pre.path_leaf(i0, i1),
{
    let n = pre.node_count();
    assert(0u64 & 1 == 0) by (bit_vector);
    assert forall|i: int| 0 <= i < n implies pre.node_ppns@[i] != p by {
        if pre.node_ppns@[i] == p {
            assert(pre.node_ppns@.contains(p));
        }
    }
    // find_node_in is unchanged for any page number a pre node carries
    assert forall|q: u64| q != p implies find_node_in(post.node_ppns@, q) == find_node_in(
        pre.node_ppns@,
        q,
    ) by {
        lemma_find_node_push(pre.node_ppns@, q, p);
    }
    // entries of pre nodes read the same
    assert forall|j: int, k: int| 0 <= j < n && 0 <= k < 512 implies post.entry_at(j, k)
        == pre.entry_at(j, k) by {
        assert(512 * j + k < 512 * n) by (nonlinear_arith)
            requires
                0 <= j < n && 0 <= k < 512,
        ;
    }
    assert forall|k: int| 0 <= k < 512 implies post.entry_at(n, k).bits == 0 by {
        assert(512 * n <= 512 * n + k < 512 * (n + 1));
    }
    // well-formedness
    assert forall|j: int, k: int| post.is_pointer_slot(j, k) implies #[trigger] post.pointer_ok(
        j,
        k,
    ) by {
        if j < n {
            assert(pre.is_pointer_slot(j, k));
            assert(pre.pointer_ok(j, k));
            let t = pre.entry_at(j, k).spec_ppn();
            lemma_find_node_props(pre.node_ppns@, t);
            assert(t != p);
        } else {
            assert(post.entry_at(j, k).bits == 0);
        }
    }
    assert forall|j1: int, k1: int, j2: int, k2: int|
        post.is_pointer_slot(j1, k1) && post.is_pointer_slot(j2, k2) && (j1 != j2 || k1 != k2)
        implies #[trigger] post.entry_at(j1, k1).spec_ppn() != #[trigger] post.entry_at(
        j2,
        k2,
    ).spec_ppn() by {
        assert(j1 < n && j2 < n);
        assert(pre.is_pointer_slot(j1, k1) && pre.is_pointer_slot(j2, k2));
    }
    assert(post.wf());
    assert forall|q: u64| post.has_node_ppn(q) <==> pre.has_node_ppn(q) || q == p by {
        if pre.has_node_ppn(q) {
            let i = choose|i: int| 0 <= i < n && pre.node_ppns@[i] == q;
            assert(post.node_ppns@[i] == q);
            assert(post.node_ppns@.contains(q));
        }
        if q == p {
            assert(post.node_ppns@[n] == p);
            assert(post.node_ppns@.contains(q));
        }
        if post.has_node_ppn(q) && q != p {
            let i = choose|i: int| 0 <= i < n + 1 && post.node_ppns@[i] == q;
            assert(i < n);
            assert(pre.node_ppns@[i] == q);
            assert(pre.node_ppns@.contains(q));
        }
    }
    // paths and translations
    assert forall|i0: int, i1: int| 0 <= i0 < 512 && 0 <= i1 < 512 implies post.path_leaf(i0, i1)
        == pre.path_leaf(i0, i1) by {
        lemma_push_path(pre, post, p, lvl, i0, i1);
    }
    assert forall|w: u64| post.translate_spec(w) == pre.translate_spec(w) by {
        let i0 = vpn_index(w, 0);
        let i1 = vpn_index(w, 1);
        let i2 = vpn_index(w, 2);
        lemma_push_path(pre, post, p, lvl, i0, i1);
        match pre.path_leaf(i0, i1) {
            None => {},
            Some(f2) => {
                lemma_path_leaf_bounds(pre, i0, i1);
                assert(post.entry_at(f2, i2) == pre.entry_at(f2, i2));
            },
        }
    }
}

/// Helper for `lemma_push_node`: one path, all reads identical.
proof fn lemma_push_path(pre: PageTable, post: PageTable, p: u64, lvl: u8, i0: int, i1: int)
    requires
        pre.wf(),
        !pre.node_ppns@.contains(p),
        post.node_ppns@ == pre.node_ppns@.push(p),
        post.node_levels@ == pre.node_levels@.push(lvl),
        post.entries@.len() == pre.entries@.len() + 512,
        forall|i: int| 0 <= i < pre.entries@.len() ==> post.entries@[i] == pre.entries@[i],
        0 <= i0 < 512,
        0 <= i1 < 512,
    ensures
        post.path_leaf(i0, i1) == pre.path_leaf(i0, i1),
{
    let n = pre.node_count();
    assert forall|i: int| 0 <= i < n implies pre.node_ppns@[i] != p by {
        if pre.node_ppns@[i] == p {
            assert(pre.node_ppns@.contains(p));
        }
    }
    assert(post.entry_at(0, i0) == pre.entry_at(0, i0));
    let e0 = pre.entry_at(0, i0);
    if e0.spec_valid() {
        assert(pre.is_pointer_slot(0, i0));
        assert(pre.pointer_ok(0, i0));
        let t0 = e0.spec_ppn();
        lemma_find_node_props(pre.node_ppns@, t0);
        assert(t0 != p);
        lemma_find_node_push(pre.node_ppns@, t0, p);
        let f1 = find_node_in(pre.node_ppns@, t0)->Some_0;
        assert(512 * f1 + i1 < 512 * n) by (nonlinear_arith)
            requires
                0 <= f1 < n && 0 <= i1 < 512,
        ;
        assert(post.entry_at(f1, i1) == pre.entry_at(f1, i1));
        let e1 = pre.entry_at(f1, i1);
        if e1.spec_valid() {
            assert(pre.is_pointer_slot(f1, i1));
            assert(pre.pointer_ok(f1, i1));
            let t1 = e1.spec_ppn();
            lemma_find_node_props(pre.node_ppns@, t1);
            assert(t1 != p);
            lemma_find_node_push(pre.node_ppns@, t1, p);
        }
    }
}

/// Bounds of a successful walk: the nodes read exist and carry the levels
/// the walk relies on.
proof fn lemma_path_leaf_bounds(pt: PageTable, i0: int, i1: int)
    requires
        pt.wf(),
        0 <= i0 < 512,
        0 <= i1 < 512,
        pt.path_leaf(i0, i1) is Some,
    ensures
        0 <= pt.path_leaf(i0, i1)->Some_0 < pt.node_count(),
        pt.node_levels@[pt.path_leaf(i0, i1)->Some_0] == 2,
{
    let e0 = pt.entry_at(0, i0);
    assert(pt.is_pointer_slot(0, i0));
    assert(pt.pointer_ok(0, i0));
    let t0 = e0.spec_ppn();
    lemma_find_node_props(pt.node_ppns@, t0);
    let f1 = find_node_in(pt.node_ppns@, t0)->Some_0;
    assert(pt.node_levels@[f1] == 1);
    let e1 = pt.entry_at(f1, i1);
    assert(pt.is_pointer_slot(f1, i1));
    assert(pt.pointer_ok(f1, i1));
    let t1 = e1.spec_ppn();
    lemma_find_node_props(pt.node_ppns@, t1);
}


/// Replacing the entry at a slot of a level-2 node preserves
/// well-formedness and changes at most the translation whose walk reads
/// that very slot.
proof fn lemma_update_leaf(pre: PageTable, post: PageTable, j2: int, k2: int, e: PageTableEntry)
    requires
        pre.wf(),
        0 <= j2 < pre.node_count(),
        0 <= k2 < 512,
        pre.node_levels@[j2] == 2,
        e.bits == 0 || e.spec_valid(),
        post.root_ppn == pre.root_ppn,
        post.node_ppns@ == pre.node_ppns@,
        post.node_levels@ == pre.node_levels@,
        post.entries@ == pre.entries@.update(512 * j2 + k2, e),
    ensures
        post.wf(),
        forall|w: u64|
            pre.path_leaf(vpn_index(w, 0), vpn_index(w, 1)) != Some(j2) || vpn_index(w, 2) != k2
                ==> post.translate_spec(w) == pre.translate_spec(w),
        forall|w: u64|
            pre.path_leaf(vpn_index(w, 0), vpn_index(w, 1)) == Some(j2) && vpn_index(w, 2) == k2
                ==> post.translate_spec(w) == (if e.spec_valid() {
                Some(e)
            } else {
                None::<PageTableEntry>
            }),
        forall|i0: int, i1: int|
            0 <= i0 < 512 && 0 <= i1 < 512 ==> post.path_leaf(i0, i1) == pre.path_leaf(i0, i1),
{
    let n = pre.node_count();
    let u = 512 * j2 + k2;
    assert(u < 512 * n) by (nonlinear_arith)
        requires
            0 <= j2 < n && 0 <= k2 < 512 && u == 512 * j2 + k2,
    ;
    assert forall|j: int, k: int|
        0 <= j < n && 0 <= k < 512 && (j != j2 || k != k2) implies #[trigger] post.entry_at(j, k)
        == pre.entry_at(j, k) by {
        assert(512 * j + k < 512 * n) by (nonlinear_arith)
            requires
                0 <= j < n && 0 <= k < 512,
        ;
        if 512 * j + k == u {
            lemma_flat_index(j, k, j2, k2);
        }
    }
    assert(post.entry_at(j2, k2) == e);
    assert forall|idx: int|
        0 <= idx < post.entries@.len() implies (#[trigger] post.entries@[idx].bits) & 1 == 1
        || post.entries@[idx].bits == 0 by {
        if idx != u {
            assert(post.entries@[idx] == pre.entries@[idx]);
        }
    }
    assert forall|j: int, k: int| post.is_pointer_slot(j, k) implies #[trigger] post.pointer_ok(
        j,
        k,
    ) by {
        assert(j != j2);
        assert(post.entry_at(j, k) == pre.entry_at(j, k));
        assert(pre.is_pointer_slot(j, k));
        assert(pre.pointer_ok(j, k));
    }
    assert forall|ja: int, ka: int, jb: int, kb: int|
        post.is_pointer_slot(ja, ka) && post.is_pointer_slot(jb, kb) && (ja != jb || ka != kb)
        implies #[trigger] post.entry_at(ja, ka).spec_ppn() != #[trigger] post.entry_at(
        jb,
        kb,
    ).spec_ppn() by {
        assert(ja != j2 && jb != j2);
        assert(pre.is_pointer_slot(ja, ka) && pre.is_pointer_slot(jb, kb));
    }
    assert(post.wf());
    assert forall|i0: int, i1: int| 0 <= i0 < 512 && 0 <= i1 < 512 implies post.path_leaf(i0, i1)
        == pre.path_leaf(i0, i1) by {
        lemma_update_leaf_path(pre, post, j2, k2, e, i0, i1);
    }
    assert forall|w: u64|
        pre.path_leaf(vpn_index(w, 0), vpn_index(w, 1)) != Some(j2) || vpn_index(w, 2)
            != k2 implies post.translate_spec(w) == pre.translate_spec(w) by {
        let i0 = vpn_index(w, 0);
        let i1 = vpn_index(w, 1);
        let i2 = vpn_index(w, 2);
        lemma_update_leaf_path(pre, post, j2, k2, e, i0, i1);
        match pre.path_leaf(i0, i1) {
            None => {},
            Some(f2) => {
                lemma_path_leaf_bounds(pre, i0, i1);
                assert(f2 != j2 || i2 != k2);
                assert(post.entry_at(f2, i2) == pre.entry_at(f2, i2));
            },
        }
    }
    assert forall|w: u64|
        pre.path_leaf(vpn_index(w, 0), vpn_index(w, 1)) == Some(j2) && vpn_index(w, 2)
            == k2 implies post.translate_spec(w) == (if e.spec_valid() {
        Some(e)
    } else {
        None::<PageTableEntry>
    }) by {
        let i0 = vpn_index(w, 0);
        let i1 = vpn_index(w, 1);
        lemma_update_leaf_path(pre, post, j2, k2, e, i0, i1);
        assert(post.entry_at(j2, k2) == e);
    }
}

/// Helper for `lemma_update_leaf`: a leaf-level write leaves every walk
/// prefix untouched.
proof fn lemma_update_leaf_path(
    pre: PageTable,
    post: PageTable,
    j2: int,
    k2: int,
    e: PageTableEntry,
    i0: int,
    i1: int,
)
    requires
        pre.wf(),
        0 <= j2 < pre.node_count(),
        0 <= k2 < 512,
        pre.node_levels@[j2] == 2,
        post.node_ppns@ == pre.node_ppns@,
        post.node_levels@ == pre.node_levels@,
        post.entries@ == pre.entries@.update(512 * j2 + k2, e),
        0 <= i0 < 512,
        0 <= i1 < 512,
    ensures
        post.path_leaf(i0, i1) == pre.path_leaf(i0, i1),
{
    let n = pre.node_count();
    assert forall|j: int, k: int|
        0 <= j < n && 0 <= k < 512 && j != j2 implies #[trigger] post.entry_at(j, k)
        == pre.entry_at(j, k) by {
        assert(512 * j + k < 512 * n) by (nonlinear_arith)
            requires
                0 <= j < n && 0 <= k < 512,
        ;
        if 512 * j + k == 512 * j2 + k2 {
            lemma_flat_index(j, k, j2, k2);
        }
    }
    assert(j2 != 0);
    assert(post.entry_at(0, i0) == pre.entry_at(0, i0));
    let e0 = pre.entry_at(0, i0);
    if e0.spec_valid() {
        assert(pre.is_pointer_slot(0, i0));
        assert(pre.pointer_ok(0, i0));
        let t0 = e0.spec_ppn();
        lemma_find_node_props(pre.node_ppns@, t0);
        match find_node_in(pre.node_ppns@, t0) {
            None => {},
            Some(f1) => {
                assert(pre.node_levels@[f1] == 1);
                assert(f1 != j2);
                assert(post.entry_at(f1, i1) == pre.entry_at(f1, i1));
            },
        }
    }
}

/// Two virtual pages below the SV39 bound whose walks reach the same leaf
/// node and the same slot are the same page: pointer entries never alias.
proof fn lemma_path_unique(pt: PageTable, v: u64, w: u64)
    requires
        pt.wf(),
        v < VPN_LIMIT,
        w < VPN_LIMIT,
        pt.path_leaf(vpn_index(v, 0), vpn_index(v, 1)) is Some,
        pt.path_leaf(vpn_index(w, 0), vpn_index(w, 1)) == pt.path_leaf(
            vpn_index(v, 0),
            vpn_index(v, 1),
        ),
        vpn_index(v, 2) == vpn_index(w, 2),
    ensures
        v == w,
{
    let i0v = vpn_index(v, 0);
    let i1v = vpn_index(v, 1);
    let i0w = vpn_index(w, 0);
    let i1w = vpn_index(w, 1);
    let e0v = pt.entry_at(0, i0v);
    let e0w = pt.entry_at(0, i0w);
    assert(e0v.spec_valid() && e0w.spec_valid());
    assert(pt.is_pointer_slot(0, i0v) && pt.is_pointer_slot(0, i0w));
    assert(pt.pointer_ok(0, i0v) && pt.pointer_ok(0, i0w));
    let t0v = e0v.spec_ppn();
    let t0w = e0w.spec_ppn();
    lemma_find_node_props(pt.node_ppns@, t0v);
    lemma_find_node_props(pt.node_ppns@, t0w);
    let f1v = find_node_in(pt.node_ppns@, t0v)->Some_0;
    let f1w = find_node_in(pt.node_ppns@, t0w)->Some_0;
    let e1v = pt.entry_at(f1v, i1v);
    let e1w = pt.entry_at(f1w, i1w);
    assert(e1v.spec_valid() && e1w.spec_valid());
    assert(pt.node_levels@[f1v] == 1 && pt.node_levels@[f1w] == 1);
    assert(pt.is_pointer_slot(f1v, i1v) && pt.is_pointer_slot(f1w, i1w));
    let t1v = e1v.spec_ppn();
    let t1w = e1w.spec_ppn();
    lemma_find_node_props(pt.node_ppns@, t1v);
    lemma_find_node_props(pt.node_ppns@, t1w);
    let f2 = pt.path_leaf(i0v, i1v)->Some_0;
    assert(pt.node_ppns@[f2] == t1v && pt.node_ppns@[f2] == t1w);
    assert(t1v == t1w);
    assert(pt.entry_at(f1v, i1v).spec_ppn() == pt.entry_at(f1w, i1w).spec_ppn());
    assert(f1v == f1w && i1v == i1w);
    assert(pt.node_ppns@[f1v] == t0v && pt.node_ppns@[f1w] == t0w);
    assert(t0v == t0w);
    assert(pt.entry_at(0, i0v).spec_ppn() == pt.entry_at(0, i0w).spec_ppn());
    assert(i0v == i0w);
    crate::address::lemma_vpn_indexes_injective(v, w);
}

/// Writing a pointer entry aimed at an existing all-empty node one level
/// deeper preserves well-formedness and changes no translation: every walk
/// through the new pointer dead-ends in the empty child.
proof fn lemma_install_pointer(pre: PageTable, post: PageTable, j: int, k: int, c: int)
    requires
        pre.wf(),
        0 <= j < pre.node_count(),
        0 <= k < 512,
        pre.node_levels@[j] < 2,
        pre.entry_at(j, k).bits == 0,
        0 <= c < pre.node_count(),
        pre.node_levels@[c] == pre.node_levels@[j] + 1,
        forall|kk: int| 0 <= kk < 512 ==> (#[trigger] pre.entry_at(c, kk)).bits == 0,
        forall|ja: int, ka: int|
            pre.is_pointer_slot(ja, ka) ==> (#[trigger] pre.entry_at(ja, ka)).spec_ppn()
                != pre.node_ppns@[c],
        post.root_ppn == pre.root_ppn,
        post.node_ppns@ == pre.node_ppns@,
        post.node_levels@ == pre.node_levels@,
        post.entries@ == pre.entries@.update(512 * j + k, ptr_pte(pre.node_ppns@[c])),
    ensures
        post.wf(),
        forall|w: u64| post.translate_spec(w) == pre.translate_spec(w),
        post.entry_at(j, k) == ptr_pte(pre.node_ppns@[c]),
{
    let n = pre.node_count();
    let pc = pre.node_ppns@[c];
    let pe = ptr_pte(pc);
    assert(pc < PPN_LIMIT);
    lemma_pte_encode(pc, 1);
    assert(pe.bits == (pc << 10) | (1u8 as u64));
    assert(1u8 & 1 == 1) by (bit_vector);
    assert(pe.spec_ppn() == pc && pe.spec_flags() == 1 && pe.spec_valid());
    assert forall|ja: int, ka: int|
        0 <= ja < n && 0 <= ka < 512 && (ja != j || ka != k) implies #[trigger] post.entry_at(
        ja,
        ka,
    ) == pre.entry_at(ja, ka) by {
        assert(512 * ja + ka < 512 * n) by (nonlinear_arith)
            requires
                0 <= ja < n && 0 <= ka < 512,
        ;
        if 512 * ja + ka == 512 * j + k {
            lemma_flat_index(ja, ka, j, k);
        }
    }
    assert(post.entry_at(j, k) == pe);
    assert forall|idx: int|
        0 <= idx < post.entries@.len() implies (#[trigger] post.entries@[idx].bits) & 1 == 1
        || post.entries@[idx].bits == 0 by {
        if idx != 512 * j + k {
            assert(post.entries@[idx] == pre.entries@[idx]);
        }
    }
    assert forall|ja: int, ka: int| post.is_pointer_slot(ja, ka) implies #[trigger] post.pointer_ok(
        ja,
        ka,
    ) by {
        if ja == j && ka == k {
            lemma_find_node_unique(post.node_ppns@, pc, c);
        } else {
            assert(post.entry_at(ja, ka) == pre.entry_at(ja, ka));
            assert(pre.is_pointer_slot(ja, ka));
            assert(pre.pointer_ok(ja, ka));
        }
    }
    assert forall|ja: int, ka: int, jb: int, kb: int|
        post.is_pointer_slot(ja, ka) && post.is_pointer_slot(jb, kb) && (ja != jb || ka != kb)
        implies #[trigger] post.entry_at(ja, ka).spec_ppn() != #[trigger] post.entry_at(
        jb,
        kb,
    ).spec_ppn() by {
        if ja == j && ka == k {
            assert(post.entry_at(jb, kb) == pre.entry_at(jb, kb));
            assert(pre.is_pointer_slot(jb, kb));
        } else if jb == j && kb == k {
            assert(post.entry_at(ja, ka) == pre.entry_at(ja, ka));
            assert(pre.is_pointer_slot(ja, ka));
        } else {
            assert(post.entry_at(ja, ka) == pre.entry_at(ja, ka));
            assert(post.entry_at(jb, kb) == pre.entry_at(jb, kb));
            assert(pre.is_pointer_slot(ja, ka) && pre.is_pointer_slot(jb, kb));
        }
    }
    assert(post.wf());
    assert forall|w: u64| post.translate_spec(w) == pre.translate_spec(w) by {
        lemma_install_pointer_one(pre, post, j, k, c, w);
    }
}

/// Helper for `lemma_install_pointer`: one translation compared step by
/// step.
proof fn lemma_install_pointer_one(pre: PageTable, post: PageTable, j: int, k: int, c: int, w: u64)
    requires
        pre.wf(),
        post.wf(),
        0 <= j < pre.node_count(),
        0 <= k < 512,
        pre.node_levels@[j] < 2,
        pre.entry_at(j, k).bits == 0,
        0 <= c < pre.node_count(),
        pre.node_levels@[c] == pre.node_levels@[j] + 1,
        forall|kk: int| 0 <= kk < 512 ==> (#[trigger] pre.entry_at(c, kk)).bits == 0,
        post.node_ppns@ == pre.node_ppns@,
        post.node_levels@ == pre.node_levels@,
        post.entries@ == pre.entries@.update(512 * j + k, ptr_pte(pre.node_ppns@[c])),
        post.entry_at(j, k) == ptr_pte(pre.node_ppns@[c]),
    ensures
        post.translate_spec(w) == pre.translate_spec(w),
{
    let n = pre.node_count();
    let pc = pre.node_ppns@[c];
    let pe = ptr_pte(pc);
    lemma_pte_encode(pc, 1);
    assert(pe.bits == (pc << 10) | (1u8 as u64));
    assert(1u8 & 1 == 1) by (bit_vector);
    assert(pe.spec_ppn() == pc && pe.spec_flags() == 1 && pe.spec_valid());
    assert(0u64 & 1 == 0) by (bit_vector);
    assert forall|ja: int, ka: int|
        0 <= ja < n && 0 <= ka < 512 && (ja != j || ka != k) implies #[trigger] post.entry_at(
        ja,
        ka,
    ) == pre.entry_at(ja, ka) by {
        assert(512 * ja + ka < 512 * n) by (nonlinear_arith)
            requires
                0 <= ja < n && 0 <= ka < 512,
        ;
        if 512 * ja + ka == 512 * j + k {
            lemma_flat_index(ja, ka, j, k);
        }
    }
    let i0 = vpn_index(w, 0);
    let i1 = vpn_index(w, 1);
    let i2 = vpn_index(w, 2);
    if j == 0 && i0 == k {
        // the installed pointer is read at the root: before, the walk died
        // there; now it dead-ends in the empty child
        assert(pre.node_levels@[j] == 0);
        assert(pre.node_levels@[c] == 1);
        assert(c != 0);
        assert(!pre.entry_at(0, i0).spec_valid());
        assert(pre.translate_spec(w) is None);
        assert(post.entry_at(0, i0) == pe);
        lemma_find_node_unique(post.node_ppns@, pc, c);
        assert(post.entry_at(c, i1) == pre.entry_at(c, i1));
        assert(!post.entry_at(c, i1).spec_valid());
        assert(post.translate_spec(w) is None);
    } else {
        assert(post.entry_at(0, i0) == pre.entry_at(0, i0));
        let e0 = pre.entry_at(0, i0);
        if !e0.spec_valid() {
        } else {
            assert(pre.is_pointer_slot(0, i0));
            assert(pre.pointer_ok(0, i0));
            let t0 = e0.spec_ppn();
            lemma_find_node_props(pre.node_ppns@, t0);
            let f1 = find_node_in(pre.node_ppns@, t0)->Some_0;
            assert(pre.node_levels@[f1] == 1);
            if f1 == j && i1 == k {
                // the installed pointer is read at level 1
                assert(pre.node_levels@[c] == 2);
                assert(!pre.entry_at(f1, i1).spec_valid());
                assert(pre.translate_spec(w) is None);
                assert(post.entry_at(f1, i1) == pe);
                lemma_find_node_unique(post.node_ppns@, pc, c);
                assert(c != j);
                assert(post.entry_at(c, i2) == pre.entry_at(c, i2));
                assert(!post.entry_at(c, i2).spec_valid());
                assert(post.translate_spec(w) is None);
            } else {
                assert(post.entry_at(f1, i1) == pre.entry_at(f1, i1));
                let e1 = pre.entry_at(f1, i1);
                if !e1.spec_valid() {
                } else {
                    assert(pre.is_pointer_slot(f1, i1));
                    assert(pre.pointer_ok(f1, i1));
                    let t1 = e1.spec_ppn();
                    lemma_find_node_props(pre.node_ppns@, t1);
                    let f2 = find_node_in(pre.node_ppns@, t1)->Some_0;
                    assert(pre.node_levels@[f2] == 2);
                    assert(f2 != j);
                    assert(post.entry_at(f2, i2) == pre.entry_at(f2, i2));
                }
            }
        }
    }
}


impl PageTable {
    /// Walk for root slot `i0` and mid slot `i1`, appending a fresh node
    /// for every missing intermediate, and return the level-2 node the path
    /// reaches.  Creation maps nothing: every translation is exactly as
    /// before.  Fails only when the allocator cannot supply the missing
    /// nodes, and then changes nothing.
    #[verifier::rlimit(50)]
    fn ensure_leaf_node(&mut self, i0: usize, i1: usize, allocator: &mut StackFrameAllocator) -> (r:
        Result<usize, MapError>)
        requires
            old(self).wf(),
            old(allocator).wf(),
            old(self).nodes_leased_by(*old(allocator)),
            i0 < 512,
            i1 < 512,
        ensures
            final(self).wf(),
            final(allocator).wf(),
            final(self).nodes_leased_by(*final(allocator)),
            final(self).spec_root() == old(self).spec_root(),
            forall|q: u64| old(allocator).is_leased(q) ==> final(allocator).is_leased(q),
            forall|q: u64| old(self).has_node_ppn(q) ==> final(self).has_node_ppn(q),
            forall|q: u64|
                final(self).has_node_ppn(q) && !old(self).has_node_ppn(q) ==> !old(
                    allocator,
                ).is_leased(q),
            forall|w: u64| final(self).translate_spec(w) == old(self).translate_spec(w),
            final(allocator).limit() == old(allocator).limit(),
            match r {
                Ok(f2) => {
                    &&& (f2 as int) < final(self).node_count()
                    &&& final(self).path_leaf(i0 as int, i1 as int) == Some(f2 as int)
                    &&& final(self).node_levels@[f2 as int] == 2
                    &&& old(allocator).free_count() - 2 <= final(allocator).free_count()
                    &&& final(allocator).free_count() <= old(allocator).free_count()
                },
                Err(e) => {
                    &&& e == MapError::FrameExhausted
                    &&& *final(self) == *old(self)
                    &&& *final(allocator) == *old(allocator)
                    &&& old(allocator).free_count() < 2
                },
            },
            old(allocator).free_count() >= 2 ==> r is Ok,
    {
        let e0 = self.entries[i0];
        assert(e0 == self.entry_at(0, i0 as int));
        if e0.is_valid() {
            proof {
                assert(self.is_pointer_slot(0, i0 as int));
                assert(self.pointer_ok(0, i0 as int));
            }
            let t0 = e0.ppn();
            let f1 = self.find_node(t0.0).unwrap();
            proof {
                lemma_find_node_props(self.node_ppns@, t0.0);
                assert(self.node_levels@[f1 as int] == 1);
            }
            let total = self.entries.len();
            assert(512 * (f1 as int) + (i1 as int) < total);
            let e1 = self.entries[f1 * 512 + i1];
            assert(e1 == self.entry_at(f1 as int, i1 as int));
            if e1.is_valid() {
                proof {
                    assert(self.is_pointer_slot(f1 as int, i1 as int));
                    assert(self.pointer_ok(f1 as int, i1 as int));
                }
                let t1 = e1.ppn();
                let f2 = self.find_node(t1.0).unwrap();
                proof {
                    lemma_find_node_props(self.node_ppns@, t1.0);
                    assert(self.path_leaf(i0 as int, i1 as int) == Some(f2 as int));
                }
                Ok(f2)
            } else {
                if allocator.free_frames() < 1 {
                    return Err(MapError::FrameExhausted);
                }
                let p2 = allocator.alloc_frame().unwrap();
                proof {
                    assert(!self.has_node_ppn(p2.0));
                }
                let ghost s0 = *self;
                self.push_empty_node(p2.0, 2);
                let c = self.node_ppns.len() - 1;
                let ghost s1 = *self;
                let pte = PageTableEntry::new(p2, PTEFlags::from_bits(PTE_V));
                proof {
                    assert(pte == ptr_pte(p2.0));
                    assert(s1.node_levels@[f1 as int] == 1);
                    assert(s1.node_levels@[c as int] == 2);
                    assert(s1.entry_at(f1 as int, i1 as int) == s0.entry_at(f1 as int, i1 as int));
                    assert(s0.entry_at(f1 as int, i1 as int).bits == 0);
                    assert forall|kk: int| 0 <= kk < 512 implies (#[trigger] s1.entry_at(
                        c as int,
                        kk,
                    )).bits == 0 by {
                        assert(512 * (c as int) + kk >= s0.entries@.len()) by (nonlinear_arith)
                            requires
                                c == s0.node_count() && s0.entries@.len() == 512 * (c as int) && kk
                                    >= 0,
                        ;
                    }
                    assert forall|ja: int, ka: int| s1.is_pointer_slot(ja, ka) implies (
                    #[trigger] s1.entry_at(ja, ka)).spec_ppn() != s1.node_ppns@[c as int] by {
                        if ja < s0.node_count() {
                            assert(s1.entry_at(ja, ka) == s0.entry_at(ja, ka));
                            assert(s0.is_pointer_slot(ja, ka));
                            assert(s0.pointer_ok(ja, ka));
                            let t = s0.entry_at(ja, ka).spec_ppn();
                            lemma_find_node_props(s0.node_ppns@, t);
                            assert(s0.node_ppns@.contains(t));
                        } else {
                            assert(s1.entry_at(ja, ka).bits == 0);
                            assert(0u64 & 1 == 0) by (bit_vector);
                        }
                    }
                }
                self.set_entry(f1, i1, pte);
                proof {
                    lemma_install_pointer(s1, *self, f1 as int, i1 as int, c as int);
                    // the created path is now complete
                    assert(self.entry_at(0, i0 as int) == s1.entry_at(0, i0 as int));
                    assert(self.entry_at(0, i0 as int) == e0);
                    lemma_find_node_props(s0.node_ppns@, t0.0);
                    assert(s0.node_ppns@.contains(t0.0));
                    lemma_find_node_push(s0.node_ppns@, t0.0, p2.0);
                    assert(find_node_in(self.node_ppns@, t0.0) == Some(f1 as int));
                    assert(self.entry_at(f1 as int, i1 as int) == ptr_pte(p2.0));
                    assert(find_node_in(self.node_ppns@, p2.0) == Some(c as int));
                    assert(self.path_leaf(i0 as int, i1 as int) == Some(c as int));
                }
                Ok(c)
            }
        } else {
            if allocator.free_frames() < 2 {
                return Err(MapError::FrameExhausted);
            }
            let p1 = allocator.alloc_frame().unwrap();
            let p2 = allocator.alloc_frame().unwrap();
            proof {
                assert(p1.0 != p2.0);
                assert(!self.has_node_ppn(p1.0));
                assert(!self.has_node_ppn(p2.0));
            }
            let ghost s0 = *self;
            self.push_empty_node(p1.0, 1);
            let a = self.node_ppns.len() - 1;
            let ghost s1 = *self;
            self.push_empty_node(p2.0, 2);
            let b = self.node_ppns.len() - 1;
            let ghost s2 = *self;
            proof {
                assert(s2.node_levels@[0] == 0);
                assert(s2.node_levels@[a as int] == 1);
                assert(s2.node_levels@[b as int] == 2);
                assert(s2.entry_at(0, i0 as int) == s0.entry_at(0, i0 as int));
                assert(s0.entry_at(0, i0 as int).bits == 0);
                assert forall|kk: int| 0 <= kk < 512 implies (#[trigger] s2.entry_at(
                    a as int,
                    kk,
                )).bits == 0 by {
                    assert(s0.entries@.len() <= 512 * (a as int) + kk < s1.entries@.len())
                        by (nonlinear_arith)
                        requires
                            a == s0.node_count() && s0.entries@.len() == 512 * (a as int)
                                && s1.entries@.len() == 512 * (a as int) + 512 && 0 <= kk < 512,
                    ;
                    assert(s2.entries@[512 * (a as int) + kk] == s1.entries@[512 * (a as int) + kk]);
                }
                assert forall|kk: int| 0 <= kk < 512 implies (#[trigger] s2.entry_at(
                    b as int,
                    kk,
                )).bits == 0 by {
                    assert(s1.entries@.len() <= 512 * (b as int) + kk < s2.entries@.len())
                        by (nonlinear_arith)
                        requires
                            b == s1.node_count() && s1.entries@.len() == 512 * (b as int) && 0 <= kk
                                < 512 && s2.entries@.len() == 512 * (b as int) + 512,
                    ;
                }
                assert forall|ja: int, ka: int| s2.is_pointer_slot(ja, ka) implies (
                #[trigger] s2.entry_at(ja, ka)).spec_ppn() != s2.node_ppns@[a as int] by {
                    assert(0u64 & 1 == 0) by (bit_vector);
                    if ja < s0.node_count() {
                        assert(s2.entry_at(ja, ka) == s0.entry_at(ja, ka));
                        assert(s0.is_pointer_slot(ja, ka));
                        assert(s0.pointer_ok(ja, ka));
                        let t = s0.entry_at(ja, ka).spec_ppn();
                        lemma_find_node_props(s0.node_ppns@, t);
                        assert(s0.node_ppns@.contains(t));
                    } else if ja == a as int {
                        assert(s2.entry_at(ja, ka).bits == 0);
                    } else {
                        assert(s2.entry_at(ja, ka).bits == 0);
                    }
                }
            }
            let pte1 = PageTableEntry::new(p1, PTEFlags::from_bits(PTE_V));
            proof {
                assert(pte1 == ptr_pte(p1.0));
            }
            self.set_entry(0, i0, pte1);
            let ghost s3 = *self;
            proof {
                lemma_install_pointer(s2, s3, 0, i0 as int, a as int);
                assert(s3.entry_at(a as int, i1 as int) == s2.entry_at(a as int, i1 as int));
                assert forall|kk: int| 0 <= kk < 512 implies (#[trigger] s3.entry_at(
                    b as int,
                    kk,
                )).bits == 0 by {
                    assert(s3.entry_at(b as int, kk) == s2.entry_at(b as int, kk));
                }
                assert forall|ja: int, ka: int| s3.is_pointer_slot(ja, ka) implies (
                #[trigger] s3.entry_at(ja, ka)).spec_ppn() != s3.node_ppns@[b as int] by {
                    assert(0u64 & 1 == 0) by (bit_vector);
                    if ja == 0 && ka == i0 as int {
                        assert(s3.entry_at(ja, ka).spec_ppn() == p1.0);
                    } else if ja < s0.node_count() {
                        assert(s3.entry_at(ja, ka) == s0.entry_at(ja, ka));
                        assert(s0.is_pointer_slot(ja, ka));
                        assert(s0.pointer_ok(ja, ka));
                        let t = s0.entry_at(ja, ka).spec_ppn();
                        lemma_find_node_props(s0.node_ppns@, t);
                        assert(s0.node_ppns@.contains(t));
                    } else {
                        assert(s3.entry_at(ja, ka) == s2.entry_at(ja, ka));
                        assert(s3.entry_at(ja, ka).bits == 0);
                    }
                }
            }
            let pte2 = PageTableEntry::new(p2, PTEFlags::from_bits(PTE_V));
            proof {
                assert(pte2 == ptr_pte(p2.0));
            }
            self.set_entry(a, i1, pte2);
            proof {
                lemma_install_pointer(s3, *self, a as int, i1 as int, b as int);
                assert(self.entry_at(0, i0 as int) == s3.entry_at(0, i0 as int));
                assert(self.entry_at(0, i0 as int) == ptr_pte(p1.0));
                lemma_find_node_push(s1.node_ppns@, p1.0, p2.0);
                assert(find_node_in(self.node_ppns@, p1.0) == Some(a as int));
                assert(self.entry_at(a as int, i1 as int) == ptr_pte(p2.0));
                assert(find_node_in(self.node_ppns@, p2.0) == Some(b as int));
                assert(self.path_leaf(i0 as int, i1 as int) == Some(b as int));
            }
            Ok(b)
        }
    }

    /// Install a mapping from `vpn` to `ppn` carrying `flags` plus the
    /// valid bit, creating intermediate nodes as needed.  Rejects a page
    /// already validly mapped — the policy is no silent remap — and reports
    /// exhaustion when the allocator cannot supply the missing nodes; both
    /// rejections leave table and allocator untouched.  On success exactly
    /// the one translation changes.
    pub fn map(
        &mut self,
        vpn: VirtPageNum,
        ppn: PhysPageNum,
        flags: PTEFlags,
        allocator: &mut StackFrameAllocator,
    ) -> (r: Result<(), MapError>)
        requires
            old(self).wf(),
            old(allocator).wf(),
            old(self).nodes_leased_by(*old(allocator)),
            vpn.0 < VPN_LIMIT,
            ppn.0 < PPN_LIMIT,
        ensures
            final(self).wf(),
            final(allocator).wf(),
            final(self).nodes_leased_by(*final(allocator)),
            final(self).spec_root() == old(self).spec_root(),
            forall|q: u64| old(allocator).is_leased(q) ==> final(allocator).is_leased(q),
            forall|q: u64| old(self).has_node_ppn(q) ==> final(self).has_node_ppn(q),
            forall|q: u64|
                final(self).has_node_ppn(q) && !old(self).has_node_ppn(q) ==> !old(
                    allocator,
                ).is_leased(q),
            final(allocator).limit() == old(allocator).limit(),
            r == Err::<(), MapError>(MapError::AlreadyMapped) <==> old(self).translate_spec(vpn.0) is Some,
            old(self).translate_spec(vpn.0) is None && old(allocator).free_count() >= 2 ==> r
                is Ok,
            match r {
                Ok(()) => {
                    &&& final(self).translate_spec(vpn.0) == Some(
                        (PageTableEntry { bits: leaf_pte_bits(ppn.0, flags.bits) }),
                    )
                    &&& forall|w: u64|
                        w < VPN_LIMIT && w != vpn.0 ==> final(self).translate_spec(w) == old(
                            self,
                        ).translate_spec(w)
                    &&& old(allocator).free_count() - 2 <= final(allocator).free_count()
                    &&& final(allocator).free_count() <= old(allocator).free_count()
                },
                Err(MapError::AlreadyMapped) => *final(self) == *old(self) && *final(allocator)
                    == *old(allocator),
                Err(MapError::FrameExhausted) => {
                    &&& *final(self) == *old(self)
                    &&& *final(allocator) == *old(allocator)
                    &&& old(allocator).free_count() < 2
                    &&& old(self).translate_spec(vpn.0) is None
                },
            },
    {
        if self.translate(vpn).is_some() {
            return Err(MapError::AlreadyMapped);
        }
        let (i0, i1, i2) = vpn.indexes();
        match self.ensure_leaf_node(i0, i1, allocator) {
            Err(e) => Err(e),
            Ok(f2) => {
                let ghost pre = *self;
                let pte = PageTableEntry::new(ppn, flags.union(PTEFlags::from_bits(PTE_V)));
                proof {
                    let fb = flags.bits;
                    assert((fb | 1) & 1 == 1) by (bit_vector);
                    assert(pte.spec_valid());
                    assert(pte.bits == leaf_pte_bits(ppn.0, flags.bits));
                }
                self.set_entry(f2, i2, pte);
                proof {
                    lemma_update_leaf(pre, *self, f2 as int, i2 as int, pte);
                    assert(self.translate_spec(vpn.0) == Some(pte));
                    assert forall|w: u64| w < VPN_LIMIT && w != vpn.0 implies self.translate_spec(w)
                        == old(self).translate_spec(w) by {
                        if pre.path_leaf(vpn_index(w, 0), vpn_index(w, 1)) == Some(f2 as int)
                            && vpn_index(w, 2) == i2 as int {
                            lemma_path_unique(pre, vpn.0, w);
                        }
                    }
                }
                Ok(())
            },
        }
    }

    /// Remove the mapping for `vpn`, clearing the leaf entry to empty.
    /// Rejects a page with no valid mapping and then changes nothing.  On
    /// success exactly the one translation disappears.
    pub fn unmap(&mut self, vpn: VirtPageNum) -> (r: Result<(), UnmapError>)
        requires
            old(self).wf(),
            vpn.0 < VPN_LIMIT,
        ensures
            final(self).wf(),
            final(self).spec_root() == old(self).spec_root(),
            forall|q: u64| final(self).has_node_ppn(q) == old(self).has_node_ppn(q),
            r is Ok <==> old(self).translate_spec(vpn.0) is Some,
            match r {
                Ok(()) => {
                    &&& final(self).translate_spec(vpn.0) is None
                    &&& forall|w: u64|
                        w < VPN_LIMIT && w != vpn.0 ==> final(self).translate_spec(w) == old(
                            self,
                        ).translate_spec(w)
                },
                Err(e) => e == UnmapError::NotMapped && *final(self) == *old(self),
            },
    {
        if self.translate(vpn).is_none() {
            return Err(UnmapError::NotMapped);
        }
        let (i0, i1, i2) = vpn.indexes();
        let e0 = self.entries[i0];
        assert(e0 == self.entry_at(0, i0 as int));
        assert(e0.spec_valid());
        let t0 = e0.ppn();
        let f1 = self.find_node(t0.0).unwrap();
        proof {
            assert(self.is_pointer_slot(0, i0 as int));
            assert(self.pointer_ok(0, i0 as int));
            lemma_find_node_props(self.node_ppns@, t0.0);
            assert(self.node_levels@[f1 as int] == 1);
        }
        let total = self.entries.len();
        assert(512 * (f1 as int) + (i1 as int) < total);
        let e1 = self.entries[f1 * 512 + i1];
        assert(e1 == self.entry_at(f1 as int, i1 as int));
        assert(e1.spec_valid());
        let t1 = e1.ppn();
        let f2 = self.find_node(t1.0).unwrap();
        proof {
            assert(self.is_pointer_slot(f1 as int, i1 as int));
            assert(self.pointer_ok(f1 as int, i1 as int));
            lemma_find_node_props(self.node_ppns@, t1.0);
            assert(self.node_levels@[f2 as int] == 2);
            assert(self.path_leaf(i0 as int, i1 as int) == Some(f2 as int));
        }
        let ghost pre = *self;
        self.set_entry(f2, i2, PageTableEntry::empty());
        proof {
            let e = PageTableEntry { bits: 0u64 };
            lemma_update_leaf(pre, *self, f2 as int, i2 as int, e);
            assert(0u64 & 1 == 0) by (bit_vector);
            assert(!e.spec_valid());
            assert(self.translate_spec(vpn.0) is None);
            assert forall|w: u64| w < VPN_LIMIT && w != vpn.0 implies self.translate_spec(w) == old(
                self,
            ).translate_spec(w) by {
                if pre.path_leaf(vpn_index(w, 0), vpn_index(w, 1)) == Some(f2 as int) && vpn_index(
                    w,
                    2,
                ) == i2 as int {
                    lemma_path_unique(pre, vpn.0, w);
                }
            }
        }
        Ok(())
    }
}


/// The entry a successful `map` installs reads back exactly: its page
/// number is the mapped one, it is valid, and its flags are the given
/// ones plus the valid bit — the map/translate round trip.
pub proof fn lemma_leaf_pte_fields(ppn: u64, flags: u8)
    requires
        ppn < PPN_LIMIT,
    ensures
        (PageTableEntry { bits: leaf_pte_bits(ppn, flags) }).spec_ppn() == ppn,
        (PageTableEntry { bits: leaf_pte_bits(ppn, flags) }).spec_valid(),
        (PageTableEntry { bits: leaf_pte_bits(ppn, flags) }).spec_flags() == flags | PTE_V,
        ((PageTableEntry { bits: leaf_pte_bits(ppn, flags) }).spec_flags() & (flags | PTE_V)) == (
        flags | PTE_V),
{
    let f = flags;
    assert((f | 1) & 1 == 1) by (bit_vector);
    assert((f | 1) & (f | 1) == (f | 1)) by (bit_vector);
    lemma_pte_encode(ppn, f | 1);
}

} // verus!
