//! Physical frame allocator over a fixed range of physical page numbers.

use vstd::prelude::*;

verus! {

/// Hands out and reclaims physical page numbers from `[start, end)`.
///
/// The free pool is a stack: the most recently released frame is the next
/// one handed out, and a fresh pool hands out frames in increasing order.
pub struct FrameAllocator {
    start: usize,
    end: usize,
    free: Vec<usize>,
}

impl FrameAllocator {
    /// First physical page number managed.
    pub closed spec fn start_spec(&self) -> int {
        self.start as int
    }

    /// One past the last physical page number managed.
    pub closed spec fn end_spec(&self) -> int {
        self.end as int
    }

    /// The free pool, bottom of the stack first.
    pub closed spec fn pool(&self) -> Seq<usize> {
        self.free@
    }

    /// Every pooled frame lies in range and occurs once.
    pub closed spec fn wf(&self) -> bool {
        &&& self.start <= self.end
        &&& forall|i: int|
            0 <= i < self.free@.len() ==> self.start <= #[trigger] self.free@[i] < self.end
        &&& forall|i: int, j: int|
            0 <= i < j < self.free@.len() ==> self.free@[i] != self.free@[j]
    }

    /// Whether `ppn` is managed here and currently handed out.
    pub open spec fn is_allocated(&self, ppn: usize) -> bool {
        &&& self.start_spec() <= ppn < self.end_spec()
        &&& !self.pool().contains(ppn)
    }

    /// The frames currently handed out.
    pub open spec fn allocated(&self) -> Set<usize> {
        Set::new(|p: usize| self.is_allocated(p))
    }

    /// Number of frames in the free pool.
    pub open spec fn free_count(&self) -> nat {
        self.pool().len()
    }

    /// What taking a frame does: with an empty pool nothing changes and
    /// nothing is handed out; otherwise the frame on top of the pool
    /// leaves it and joins the frames handed out.
    pub open spec fn took(pre: FrameAllocator, post: FrameAllocator, r: Option<usize>) -> bool {
        &&& post.start_spec() == pre.start_spec()
        &&& post.end_spec() == pre.end_spec()
        &&& r is None <==> pre.free_count() == 0
        &&& r is None ==> post.pool() == pre.pool()
        &&& r is Some ==> {
            &&& r->0 == pre.pool().last()
            &&& post.pool() == pre.pool().drop_last()
            &&& !pre.is_allocated(r->0)
            &&& post.free_count() == pre.free_count() - 1
            &&& forall|q: usize|
                #[trigger] post.is_allocated(q) == (pre.is_allocated(q) || q == r->0)
        }
    }

    /// What giving a frame back does: it goes on top of the pool and is
    /// no longer handed out.
    pub open spec fn gave_back(pre: FrameAllocator, post: FrameAllocator, ppn: usize) -> bool {
        &&& post.start_spec() == pre.start_spec()
        &&& post.end_spec() == pre.end_spec()
        &&& post.pool() == pre.pool().push(ppn)
        &&& post.free_count() == pre.free_count() + 1
        &&& forall|q: usize| #[trigger] post.is_allocated(q) == (pre.is_allocated(q) && q != ppn)
    }

    /// An allocator managing `[start, end)` with every frame free.
    pub fn new(start: usize, end: usize) -> (r: Self)
        requires
            start <= end,
        ensures
            r.wf(),
            r.start_spec() == start,
            r.end_spec() == end,
            r.free_count() == end - start,
            r.allocated() == Set::<usize>::empty(),
            forall|q: usize| !r.is_allocated(q),
            forall|i: int| 0 <= i < end - start ==> #[trigger] r.pool()[i] == end - 1 - i,
    {
        let mut free: Vec<usize> = Vec::new();
        let mut p: usize = end;
        while p > start
            invariant
                start <= p <= end,
                free@.len() == end - p,
                forall|i: int| 0 <= i < free@.len() ==> #[trigger] free@[i] == end - 1 - i,
            decreases p - start,
        {
            p = p - 1;
            free.push(p);
        }
        let r = FrameAllocator { start, end, free };
        assert forall|q: usize| !r.is_allocated(q) by {
            if start <= q < end {
                assert(r.free@[end - 1 - q] == q);
            }
        }
        assert(r.allocated() =~= Set::<usize>::empty());
        r
    }

    /// First physical page number managed.
    pub fn start(&self) -> (r: usize)
        ensures
            r == self.start_spec(),
    {
        self.start
    }

    /// Number of frames that can still be handed out.
    pub fn unused_count(&self) -> (n: usize)
        ensures
            n == self.free_count(),
    {
        self.free.len()
    }

    /// Takes a frame out of the free pool, or reports exhaustion.
    pub fn allocate(&mut self) -> (r: Option<usize>)
        requires
            old(self).wf(),
        ensures
            final(self).wf(),
            Self::took(*old(self), *final(self), r),
            final(self).start_spec() == old(self).start_spec(),
            final(self).end_spec() == old(self).end_spec(),
            r is None <==> old(self).free_count() == 0,
            r is None ==> final(self).pool() == old(self).pool(),
            r is Some ==> {
                &&& r->0 == old(self).pool().last()
                &&& final(self).pool() == old(self).pool().drop_last()
                &&& !old(self).allocated().contains(r->0)
                &&& final(self).allocated() == old(self).allocated().insert(r->0)
                &&& forall|q: usize|
                    #[trigger] final(self).is_allocated(q) == (old(self).is_allocated(q) || q
                        == r->0)
                &&& final(self).free_count() == old(self).free_count() - 1
            },
    {
        let r = self.free.pop();
        proof {
            if let Some(p) = r {
                let before = old(self).free@;
                let n = before.len() - 1;
                assert(before[n] == p);
                assert(before.contains(p));
                assert forall|q: usize|
                    self.is_allocated(q) == (old(self).is_allocated(q) || q == p) by {
                    if q != p && before.contains(q) {
                        let k = choose|k: int| 0 <= k < before.len() && before[k] == q;
                        assert(self.free@[k] == q);
                    }
                    if self.free@.contains(q) {
                        let k = choose|k: int| 0 <= k < self.free@.len() && self.free@[k] == q;
                        assert(before[k] == q);
                    }
                }
                assert(self.allocated() =~= old(self).allocated().insert(p));
            }
        }
        r
    }

    /// Returns a handed-out frame to the free pool.
    pub fn deallocate(&mut self, ppn: usize)
        requires
            old(self).wf(),
            old(self).is_allocated(ppn),
        ensures
            final(self).wf(),
            Self::gave_back(*old(self), *final(self), ppn),
            final(self).start_spec() == old(self).start_spec(),
            final(self).end_spec() == old(self).end_spec(),
            final(self).pool() == old(self).pool().push(ppn),
            final(self).allocated() == old(self).allocated().remove(ppn),
            forall|q: usize|
                #[trigger] final(self).is_allocated(q) == (old(self).is_allocated(q) && q != ppn),
            final(self).free_count() == old(self).free_count() + 1,
    {
        self.free.push(ppn);
        proof {
            let before = old(self).free@;
            assert forall|i: int, j: int| 0 <= i < j < self.free@.len() implies self.free@[i]
                != self.free@[j] by {
                if j == before.len() {
                    assert(before[i] == self.free@[i]);
                    assert(before.contains(self.free@[i]));
                }
            }
            assert(self.free@[before.len() as int] == ppn);
            assert forall|q: usize|
                self.is_allocated(q) == (old(self).is_allocated(q) && q != ppn) by {
                if before.contains(q) {
                    let k = choose|k: int| 0 <= k < before.len() && before[k] == q;
                    assert(self.free@[k] == q);
                }
                if self.free@.contains(q) && q != ppn {
                    let k = choose|k: int| 0 <= k < self.free@.len() && self.free@[k] == q;
                    assert(before[k] == q);
                }
            }
            assert(self.allocated() =~= old(self).allocated().remove(ppn));
        }
    }
}

} // verus!
