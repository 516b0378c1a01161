//! Stack-style allocator of physical page frames.  Frames come from a bump
//! range fixed at initialisation; returned frames go onto a recycle list and
//! are handed out again in last-in-first-out order, before any never-used
//! frame.  A frame is *leased* from the moment it is allocated until it is
//! explicitly returned; every leased frame is distinct from every other.

use vstd::prelude::*;

use crate::address::PPN_LIMIT;
use crate::address::PhysPageNum;

verus! {

/// Fixed capacity of the recycle list.
pub const MAX_PHYSICAL_PAGES: usize = 1000;

/// Failure of returning a frame.
#[derive(Copy, Clone, PartialEq, Eq, Structural, Debug)]
pub enum FrameDeallocError {
    /// The recycle list is full.  With matched allocate/return pairs on a
    /// pool no larger than the list this cannot happen; it signals a
    /// design-level leak.
    RecycleOverflow,
}

/// The allocator: a bump range `[start, end)` of physical page numbers plus
/// the recycle list.
pub struct StackFrameAllocator {
    start: u64,
    current: u64,
    end: u64,
    recycled: Vec<u64>,
}

impl StackFrameAllocator {
    /// Internal consistency: the bump pointer sits inside the range, the
    /// range holds 44-bit page numbers, and the recycle list holds distinct
    /// already-issued frames within its capacity.
    pub closed spec fn wf(self) -> bool {
        &&& self.start <= self.current <= self.end
        &&& self.end <= PPN_LIMIT
        &&& self.recycled@.len() <= MAX_PHYSICAL_PAGES
        &&& forall|i: int|
            0 <= i < self.recycled@.len() ==> self.start <= #[trigger] self.recycled@[i]
                < self.current
        &&& forall|i: int, j: int|
            0 <= i < j < self.recycled@.len() ==> self.recycled@[i] != self.recycled@[j]
    }

    /// Whether frame `p` is currently handed out: it has been issued by the
    /// bump pointer and not returned since.
    pub closed spec fn is_leased(self, p: u64) -> bool {
        self.start <= p < self.current && !self.recycled@.contains(p)
    }

    /// How many allocations can still succeed: never-used frames plus
    /// recycled ones.
    pub closed spec fn free_count(self) -> int {
        (self.end - self.current) + self.recycled@.len()
    }

    /// The recycle list, oldest first.
    pub closed spec fn recycled_seq(self) -> Seq<u64> {
        self.recycled@
    }

    /// The next never-used frame the bump pointer would issue.
    pub closed spec fn next_fresh(self) -> u64 {
        self.current
    }

    /// The exclusive upper bound of the bump range.
    pub closed spec fn limit(self) -> u64 {
        self.end
    }

    /// An allocator over the empty range: every allocation fails until
    /// `init` widens it.
    pub fn new() -> (r: Self)
        ensures
            r.wf(),
            r.free_count() == 0,
            r.recycled_seq().len() == 0,
            forall|p: u64| !r.is_leased(p),
    {
        StackFrameAllocator { start: 0, current: 0, end: 0, recycled: Vec::new() }
    }

    /// Set the bump range `[start, end)` of allocatable page numbers and
    /// clear the recycle list.
    pub fn init(&mut self, start: PhysPageNum, end: PhysPageNum)
        requires
            start.0 <= end.0,
            end.0 <= PPN_LIMIT,
        ensures
            final(self).wf(),
            final(self).free_count() == end.0 - start.0,
            final(self).recycled_seq().len() == 0,
            final(self).next_fresh() == start.0,
            final(self).limit() == end.0,
            forall|p: u64| !final(self).is_leased(p),
    {
        self.start = start.0;
        self.current = start.0;
        self.end = end.0;
        self.recycled = Vec::new();
    }

    /// The number of allocations that can still succeed.
    pub fn free_frames(&self) -> (r: u64)
        requires
            self.wf(),
        ensures
            r == self.free_count(),
    {
        (self.end - self.current) + self.recycled.len() as u64
    }

    /// Hand out one frame: the most recently recycled one if any exists,
    /// otherwise the next never-used frame; nothing once both sources are
    /// exhausted.  A frame handed out was not leased before and is afterward,
    /// and no other frame changes state.
    pub fn alloc_frame(&mut self) -> (r: Option<PhysPageNum>)
        requires
            old(self).wf(),
        ensures
            final(self).wf(),
            match r {
                None => old(self).free_count() == 0 && *final(self) == *old(self),
                Some(p) => {
                    &&& old(self).free_count() > 0
                    &&& p.0 < PPN_LIMIT
                    &&& !old(self).is_leased(p.0)
                    &&& final(self).is_leased(p.0)
                    &&& forall|q: u64|
                        q != p.0 ==> final(self).is_leased(q) == old(self).is_leased(q)
                    &&& final(self).free_count() == old(self).free_count() - 1
                    &&& final(self).limit() == old(self).limit()
                    &&& if old(self).recycled_seq().len() > 0 {
                        &&& p.0 == old(self).recycled_seq().last()
                        &&& final(self).recycled_seq() == old(self).recycled_seq().drop_last()
                        &&& final(self).next_fresh() == old(self).next_fresh()
                    } else {
                        &&& p.0 == old(self).next_fresh()
                        &&& final(self).recycled_seq() == old(self).recycled_seq()
                        &&& final(self).next_fresh() == old(self).next_fresh() + 1
                    }
                },
            },
    {
        if self.recycled.len() > 0 {
            let ghost pre = *self;
            let p = self.recycled.pop().unwrap();
            proof {
                assert(pre.recycled@[pre.recycled@.len() - 1] == p);
                assert(!self.recycled@.contains(p)) by {
                    assert forall|i: int| 0 <= i < self.recycled@.len() implies self.recycled@[i]
                        != p by {
                        assert(pre.recycled@[i] == self.recycled@[i]);
                    }
                }
                assert forall|q: u64| q != p implies self.is_leased(q) == pre.is_leased(q) by {
                    if pre.recycled@.contains(q) {
                        let i = choose|i: int|
                            0 <= i < pre.recycled@.len() && pre.recycled@[i] == q;
                        assert(i < pre.recycled@.len() - 1);
                        assert(self.recycled@[i] == q);
                    } else {
                        if self.recycled@.contains(q) {
                            let i = choose|i: int|
                                0 <= i < self.recycled@.len() && self.recycled@[i] == q;
                            assert(pre.recycled@[i] == q);
                        }
                    }
                }
            }
            Some(PhysPageNum(p))
        } else if self.current == self.end {
            None
        } else {
            let p = self.current;
            self.current = self.current + 1;
            Some(PhysPageNum(p))
        }
    }

    /// Return a leased frame to the recycle list.  Succeeds exactly when the
    /// list has room; afterward the frame is no longer leased and sits last
    /// on the list, and no other frame changes state.
    pub fn dealloc_frame(&mut self, ppn: PhysPageNum) -> (r: Result<(), FrameDeallocError>)
        requires
            old(self).wf(),
            old(self).is_leased(ppn.0),
        ensures
            final(self).wf(),
            r is Ok <==> old(self).recycled_seq().len() < MAX_PHYSICAL_PAGES,
            match r {
                Ok(()) => {
                    &&& final(self).recycled_seq() == old(self).recycled_seq().push(ppn.0)
                    &&& !final(self).is_leased(ppn.0)
                    &&& forall|q: u64|
                        q != ppn.0 ==> final(self).is_leased(q) == old(self).is_leased(q)
                    &&& final(self).free_count() == old(self).free_count() + 1
                    &&& final(self).next_fresh() == old(self).next_fresh()
                    &&& final(self).limit() == old(self).limit()
                },
                Err(e) => e == FrameDeallocError::RecycleOverflow && *final(self) == *old(self),
            },
    {
        if self.recycled.len() >= MAX_PHYSICAL_PAGES {
            return Err(FrameDeallocError::RecycleOverflow);
        }
        let ghost pre = *self;
        self.recycled.push(ppn.0);
        proof {
            assert forall|q: u64| q != ppn.0 implies self.is_leased(q) == pre.is_leased(q) by {
                if pre.recycled@.contains(q) {
                    let i = choose|i: int| 0 <= i < pre.recycled@.len() && pre.recycled@[i] == q;
                    assert(self.recycled@[i] == q);
                } else if self.recycled@.contains(q) {
                    let i = choose|i: int| 0 <= i < self.recycled@.len() && self.recycled@[i] == q;
                    assert(i < self.recycled@.len() - 1 || self.recycled@[i] == ppn.0);
                    if i < self.recycled@.len() - 1 {
                        assert(pre.recycled@[i] == q);
                    }
                }
            }
            assert(self.recycled@.contains(ppn.0)) by {
                assert(self.recycled@[self.recycled@.len() - 1] == ppn.0);
            }
        }
        Ok(())
    }
}


/// Frame reuse is last-in-first-out: right after a frame is returned, it
/// sits last on the recycle list, so it is exactly what the next
/// allocation hands out first.
pub proof fn lemma_frame_reuse_lifo(before: StackFrameAllocator, after: StackFrameAllocator, p: u64)
    requires
        after.recycled_seq() == before.recycled_seq().push(p),
    ensures
        after.recycled_seq().len() > 0,
        after.recycled_seq().last() == p,
{
}

/// Frames handed out are pairwise distinct while leased: an allocation
/// never returns a frame that is still out.
pub proof fn lemma_alloc_fresh(a: StackFrameAllocator, p: u64, q: u64)
    requires
        a.is_leased(p),
        !a.is_leased(q),
    ensures
        p != q,
{
}

} // verus!
