//! Address spaces: page-table entries, mapped areas and the memory set.

use vstd::prelude::*;
use crate::config::PAGE_SIZE;
use crate::frame::FrameAllocator;

verus! {

/// Access rights of a mapping.
#[derive(Clone, Copy, PartialEq, Eq, Structural, Debug)]
pub struct MapPermission {
    pub r: bool,
    pub w: bool,
    pub x: bool,
    pub u: bool,
}

/// A leaf page-table entry: a frame number and its flag bits.
#[derive(Clone, Copy, PartialEq, Eq, Structural, Debug)]
pub struct PageTableEntry {
    pub ppn: usize,
    pub valid: bool,
    pub perm: MapPermission,
}

impl PageTableEntry {
    /// Whether the Valid flag is set.
    pub fn is_valid(&self) -> (r: bool)
        ensures
            r == self.valid,
    {
        self.valid
    }
}

/// Page number of the page that holds address `va`.
pub open spec fn vpn_floor(va: usize) -> usize {
    va / PAGE_SIZE
}

/// Page number of the first page that starts at or after address `va`.
pub open spec fn vpn_ceil(va: usize) -> usize {
    if va % PAGE_SIZE == 0 {
        va / PAGE_SIZE
    } else {
        (va / PAGE_SIZE + 1) as usize
    }
}

/// Page number of the page that holds `va`.
pub fn floor_vpn(va: usize) -> (r: usize)
    ensures
        r == vpn_floor(va),
{
    va / PAGE_SIZE
}

/// Page number of the first page boundary at or after `va`.
pub fn ceil_vpn(va: usize) -> (r: usize)
    ensures
        r == vpn_ceil(va),
{
    if va % PAGE_SIZE == 0 {
        va / PAGE_SIZE
    } else {
        va / PAGE_SIZE + 1
    }
}

/// Whether `va` lies on a page boundary.
pub fn page_aligned(va: usize) -> (r: bool)
    ensures
        r == (va % PAGE_SIZE == 0),
{
    va % PAGE_SIZE == 0
}

/// A contiguous range of virtual pages `[start_vpn, end_vpn)` with one
/// permission set; page `start_vpn + i` is backed by `frames[i]`.
pub struct MapArea {
    pub start_vpn: usize,
    pub end_vpn: usize,
    pub perm: MapPermission,
    pub frames: Vec<usize>,
}

impl MapArea {
    /// The range is ordered and every page in it has a frame.
    pub open spec fn wf(&self) -> bool {
        &&& self.start_vpn <= self.end_vpn
        &&& self.frames@.len() == self.end_vpn - self.start_vpn
    }

    /// Whether `vpn` lies in this area.
    pub open spec fn covers(&self, vpn: usize) -> bool {
        self.start_vpn <= vpn < self.end_vpn
    }

    /// The entry this area gives for a page it covers.
    pub open spec fn entry(&self, vpn: usize) -> PageTableEntry {
        PageTableEntry { ppn: self.frames@[vpn - self.start_vpn], valid: true, perm: self.perm }
    }
}

/// Whether no value occurs twice in `s`.
pub open spec fn distinct(s: Seq<usize>) -> bool {
    forall|i: int, j: int| 0 <= i < j < s.len() ==> s[i] != s[j]
}

/// Takes `n` frames out of the allocator.
pub fn take_frames(frames: &mut FrameAllocator, n: usize) -> (v: Vec<usize>)
    requires
        old(frames).wf(),
        old(frames).free_count() >= n,
    ensures
        final(frames).wf(),
        final(frames).start_spec() == old(frames).start_spec(),
        final(frames).end_spec() == old(frames).end_spec(),
        final(frames).free_count() == old(frames).free_count() - n,
        v@.len() == n,
        distinct(v@),
        forall|i: int| 0 <= i < n ==> !old(frames).is_allocated(#[trigger] v@[i]),
        forall|q: usize|
            #[trigger] final(frames).is_allocated(q) == (old(frames).is_allocated(q)
                || v@.contains(q)),
{
    let mut v: Vec<usize> = Vec::new();
    let mut k: usize = 0;
    while k < n
        invariant
            k <= n,
            frames.wf(),
            frames.start_spec() == old(frames).start_spec(),
            frames.end_spec() == old(frames).end_spec(),
            frames.free_count() == old(frames).free_count() - k,
            old(frames).free_count() >= n,
            v@.len() == k,
            distinct(v@),
            forall|i: int| 0 <= i < k ==> !old(frames).is_allocated(#[trigger] v@[i]),
            forall|q: usize|
                #[trigger] frames.is_allocated(q) == (old(frames).is_allocated(q) || v@.contains(
                    q,
                )),
        decreases n - k,
    {
        let ghost before = *frames;
        let ghost vb = v@;
        let got = frames.allocate();
        let p = got.unwrap();
        v.push(p);
        k = k + 1;
        proof {
            assert(!before.is_allocated(p));
            assert(!vb.contains(p));
            assert forall|i: int, j: int| 0 <= i < j < v@.len() implies v@[i] != v@[j] by {
                if j == vb.len() {
                    assert(vb[i] == v@[i]);
                    assert(vb.contains(vb[i]));
                }
            }
            assert(v@[vb.len() as int] == p);
            assert forall|q: usize|
                #[trigger] frames.is_allocated(q) == (old(frames).is_allocated(q) || v@.contains(
                    q,
                )) by {
                assert(frames.is_allocated(q) == (before.is_allocated(q) || q == p));
                if vb.contains(q) {
                    let m = choose|m: int| 0 <= m < vb.len() && vb[m] == q;
                    assert(v@[m] == q);
                }
                if v@.contains(q) && q != p {
                    let m = choose|m: int| 0 <= m < v@.len() && v@[m] == q;
                    assert(vb[m] == q);
                }
            }
        }
    }
    v
}

/// Returns every frame of `v` to the allocator.
pub fn release_frames(frames: &mut FrameAllocator, v: &Vec<usize>)
    requires
        old(frames).wf(),
        distinct(v@),
        forall|i: int| 0 <= i < v@.len() ==> old(frames).is_allocated(#[trigger] v@[i]),
    ensures
        final(frames).wf(),
        final(frames).start_spec() == old(frames).start_spec(),
        final(frames).end_spec() == old(frames).end_spec(),
        final(frames).free_count() == old(frames).free_count() + v@.len(),
        forall|q: usize|
            #[trigger] final(frames).is_allocated(q) == (old(frames).is_allocated(q)
                && !v@.contains(q)),
{
    let mut k: usize = 0;
    while k < v.len()
        invariant
            k <= v@.len(),
            frames.wf(),
            distinct(v@),
            frames.start_spec() == old(frames).start_spec(),
            frames.end_spec() == old(frames).end_spec(),
            frames.free_count() == old(frames).free_count() + k,
            forall|i: int| 0 <= i < v@.len() ==> old(frames).is_allocated(#[trigger] v@[i]),
            forall|q: usize|
                #[trigger] frames.is_allocated(q) == (old(frames).is_allocated(q)
                    && !v@.subrange(0, k as int).contains(q)),
        decreases v@.len() - k,
    {
        let ghost before = *frames;
        let p = v[k];
        proof {
            if v@.subrange(0, k as int).contains(p) {
                let m = choose|m: int|
                    0 <= m < k && v@.subrange(0, k as int)[m] == p;
                assert(v@[m] == v@[k as int]);
            }
        }
        frames.deallocate(p);
        proof {
            let s0 = v@.subrange(0, k as int);
            let s1 = v@.subrange(0, k + 1);
            assert(s1[k as int] == p);
            assert forall|q: usize|
                #[trigger] frames.is_allocated(q) == (old(frames).is_allocated(q)
                    && !s1.contains(q)) by {
                assert(frames.is_allocated(q) == (before.is_allocated(q) && q != p));
                if s0.contains(q) {
                    let m = choose|m: int| 0 <= m < s0.len() && s0[m] == q;
                    assert(s1[m] == q);
                }
                if s1.contains(q) && q != p {
                    let m = choose|m: int| 0 <= m < s1.len() && s1[m] == q;
                    assert(s0[m] == q);
                }
            }
        }
        k = k + 1;
    }
    proof {
        assert(v@.subrange(0, v@.len() as int) =~= v@);
    }
}


/// Index of the first area at or after `from` whose range is exactly
/// `[start_vpn, end_vpn)`, or `areas.len()` if there is none.
pub open spec fn find_area(areas: Seq<MapArea>, start_vpn: usize, end_vpn: usize, from: int) -> int
    decreases areas.len() - from,
{
    if from < 0 || from >= areas.len() {
        areas.len() as int
    } else if areas[from].start_vpn == start_vpn && areas[from].end_vpn == end_vpn {
        from
    } else {
        find_area(areas, start_vpn, end_vpn, from + 1)
    }
}

/// One address space: the heap area (always `areas[0]`) followed by the
/// other mapped areas in the order they were added.
pub struct MemorySet {
    pub areas: Vec<MapArea>,
    pub heap_bottom: usize,
    pub program_brk: usize,
}

impl MemorySet {
    /// Areas are well formed, never share a page, never share a frame, and
    /// the heap area spans from its page-aligned floor to the current
    /// break.
    pub open spec fn wf(&self) -> bool {
        &&& self.areas@.len() >= 1
        &&& forall|i: int| 0 <= i < self.areas@.len() ==> (#[trigger] self.areas@[i]).wf()
        &&& forall|i: int, j: int, vpn: usize|
            0 <= i < j < self.areas@.len() ==> !(#[trigger] self.areas@[i].covers(vpn)
                && #[trigger] self.areas@[j].covers(vpn))
        &&& forall|i: int, p: int, j: int, q: int|
            0 <= i < self.areas@.len() && 0 <= p < self.areas@[i].frames@.len() && 0 <= j
                < self.areas@.len() && 0 <= q < self.areas@[j].frames@.len() && (i != j || p != q)
                ==> #[trigger] self.areas@[i].frames@[p] != #[trigger] self.areas@[j].frames@[q]
        &&& self.heap_bottom % PAGE_SIZE == 0
        &&& self.heap_bottom <= self.program_brk
        &&& self.areas@[0].start_vpn == vpn_floor(self.heap_bottom)
        &&& self.areas@[0].end_vpn == vpn_ceil(self.program_brk)
    }

    /// Whether some area covers `vpn`.
    pub open spec fn mapped(&self, vpn: usize) -> bool {
        exists|i: int| 0 <= i < self.areas@.len() && (#[trigger] self.areas@[i]).covers(vpn)
    }

    /// The leaf entry for `vpn`, if any area covers it.
    pub open spec fn translate_spec(&self, vpn: usize) -> Option<PageTableEntry> {
        if self.mapped(vpn) {
            let i = choose|i: int|
                0 <= i < self.areas@.len() && (#[trigger] self.areas@[i]).covers(vpn);
            Some(self.areas@[i].entry(vpn))
        } else {
            None
        }
    }

    /// Whether frame `ppn` backs some page of this address space.
    pub open spec fn owns(&self, ppn: usize) -> bool {
        exists|i: int, p: int|
            0 <= i < self.areas@.len() && 0 <= p < self.areas@[i].frames@.len()
                && #[trigger] self.areas@[i].frames@[p] == ppn
    }

    /// Every frame of this address space is handed out by `frames`.
    pub open spec fn backed_by(&self, frames: FrameAllocator) -> bool {
        forall|q: usize| #[trigger] self.owns(q) ==> frames.is_allocated(q)
    }

    /// Number of pages mapped by the first `n` areas.
    pub open spec fn pages_upto(&self, n: int) -> int
        decreases n,
    {
        if n <= 0 {
            0
        } else {
            self.pages_upto(n - 1) + self.areas@[n - 1].frames@.len()
        }
    }

    /// Number of pages mapped by the whole address space.
    pub open spec fn page_count(&self) -> int {
        self.pages_upto(self.areas@.len() as int)
    }

    /// In a well-formed address space the area that covers a page decides
    /// its translation.
    pub proof fn lemma_translate(&self, i: int, vpn: usize)
        requires
            self.wf(),
            0 <= i < self.areas@.len(),
            self.areas@[i].covers(vpn),
        ensures
            self.mapped(vpn),
            self.translate_spec(vpn) == Some(self.areas@[i].entry(vpn)),
    {
        let j = choose|j: int|
            0 <= j < self.areas@.len() && (#[trigger] self.areas@[j]).covers(vpn);
        assert(i == j);
    }

    /// In a well-formed address space the frame that a page translates to
    /// is one that the address space owns.
    pub proof fn lemma_translate_owned(&self, vpn: usize)
        requires
            self.wf(),
            self.translate_spec(vpn) is Some,
        ensures
            self.owns(self.translate_spec(vpn)->0.ppn),
    {
        let i = choose|i: int|
            0 <= i < self.areas@.len() && (#[trigger] self.areas@[i]).covers(vpn);
        assert(self.areas@[i].wf());
        assert(self.areas@[i].frames@[vpn - self.areas@[i].start_vpn]
            == self.translate_spec(vpn)->0.ppn);
    }

    /// In a well-formed address space two different pages never translate
    /// to the same frame.
    pub proof fn lemma_distinct_pages(&self, v1: usize, v2: usize)
        requires
            self.wf(),
            v1 != v2,
            self.translate_spec(v1) is Some,
            self.translate_spec(v2) is Some,
        ensures
            self.translate_spec(v1)->0.ppn != self.translate_spec(v2)->0.ppn,
    {
        let i = choose|i: int| 0 <= i < self.areas@.len() && (#[trigger] self.areas@[i]).covers(v1);
        let j = choose|j: int| 0 <= j < self.areas@.len() && (#[trigger] self.areas@[j]).covers(v2);
        assert(self.areas@[i].wf());
        assert(self.areas@[j].wf());
        let p = v1 - self.areas@[i].start_vpn;
        let q = v2 - self.areas@[j].start_vpn;
        assert(self.areas@[i].frames@[p] != self.areas@[j].frames@[q]);
    }

    /// An address space with an empty heap at `heap_bottom` and nothing else.
    pub fn new(heap_bottom: usize) -> (r: Self)
        requires
            heap_bottom % PAGE_SIZE == 0,
        ensures
            r.wf(),
            r.areas@.len() == 1,
            r.heap_bottom == heap_bottom,
            r.program_brk == heap_bottom,
            forall|q: usize| !r.owns(q),
            forall|vpn: usize| !r.mapped(vpn),
    {
        let heap = MapArea {
            start_vpn: heap_bottom / PAGE_SIZE,
            end_vpn: heap_bottom / PAGE_SIZE,
            perm: MapPermission { r: true, w: true, x: false, u: true },
            frames: Vec::new(),
        };
        let mut areas: Vec<MapArea> = Vec::new();
        areas.push(heap);
        MemorySet { areas, heap_bottom, program_brk: heap_bottom }
    }

    /// Read-only lookup of the leaf entry for `vpn`.
    pub fn translate(&self, vpn: usize) -> (r: Option<PageTableEntry>)
        requires
            self.wf(),
        ensures
            r == self.translate_spec(vpn),
    {
        let mut i: usize = 0;
        while i < self.areas.len()
            invariant
                self.wf(),
                i <= self.areas@.len(),
                forall|j: int| 0 <= j < i ==> !(#[trigger] self.areas@[j]).covers(vpn),
            decreases self.areas@.len() - i,
        {
            let a = &self.areas[i];
            if a.start_vpn <= vpn && vpn < a.end_vpn {
                proof {
                    self.lemma_translate(i as int, vpn);
                }
                return Some(
                    PageTableEntry { ppn: a.frames[vpn - a.start_vpn], valid: true, perm: a.perm },
                );
            }
            i = i + 1;
        }
        None
    }

    /// Whether no page of `[start_vpn, end_vpn)` is mapped.
    pub fn range_unmapped(&self, start_vpn: usize, end_vpn: usize) -> (r: bool)
        requires
            self.wf(),
        ensures
            r == (forall|vpn: usize| start_vpn <= vpn < end_vpn ==> !self.mapped(vpn)),
    {
        let mut i: usize = 0;
        while i < self.areas.len()
            invariant
                self.wf(),
                i <= self.areas@.len(),
                forall|j: int, vpn: usize|
                    0 <= j < i && start_vpn <= vpn < end_vpn ==> !#[trigger] self.areas@[j].covers(vpn),
            decreases self.areas@.len() - i,
        {
            let a = &self.areas[i];
            if a.start_vpn < a.end_vpn && start_vpn < end_vpn && a.start_vpn < end_vpn && start_vpn
                < a.end_vpn {
                proof {
                    let w: usize = if a.start_vpn >= start_vpn {
                        a.start_vpn
                    } else {
                        start_vpn
                    };
                    assert(self.areas@[i as int].covers(w));
                    assert(self.mapped(w));
                }
                return false;
            }
            i = i + 1;
        }
        true
    }

    /// Whether every page of `[start_vpn, end_vpn)` is mapped, valid and
    /// open to user writes.
    pub fn range_writable(&self, start_vpn: usize, end_vpn: usize) -> (r: bool)
        requires
            self.wf(),
        ensures
            r == (forall|vpn: usize|
                start_vpn <= vpn < end_vpn ==> (#[trigger] self.translate_spec(vpn) matches Some(e)
                    && e.valid && e.perm.u && e.perm.w)),
    {
        let mut vpn: usize = start_vpn;
        while vpn < end_vpn
            invariant
                self.wf(),
                start_vpn <= vpn,
                forall|v: usize|
                    start_vpn <= v < vpn ==> (#[trigger] self.translate_spec(v) matches Some(e)
                        && e.valid && e.perm.u && e.perm.w),
            decreases end_vpn - vpn,
        {
            match self.translate(vpn) {
                Some(e) => {
                    if !(e.is_valid() && e.perm.u && e.perm.w) {
                        return false;
                    }
                },
                None => {
                    return false;
                },
            }
            vpn = vpn + 1;
        }
        true
    }

    /// Whether every page of `[start_vpn, end_vpn)` is mapped.
    pub fn range_mapped(&self, start_vpn: usize, end_vpn: usize) -> (r: bool)
        requires
            self.wf(),
        ensures
            r == (forall|vpn: usize|
                start_vpn <= vpn < end_vpn ==> (#[trigger] self.translate_spec(vpn) matches Some(e)
                    && e.valid)),
    {
        let mut vpn: usize = start_vpn;
        while vpn < end_vpn
            invariant
                self.wf(),
                start_vpn <= vpn,
                forall|v: usize|
                    start_vpn <= v < vpn ==> (#[trigger] self.translate_spec(v) matches Some(e)
                        && e.valid),
            decreases end_vpn - vpn,
        {
            match self.translate(vpn) {
                Some(e) => {
                    if !e.is_valid() {
                        return false;
                    }
                },
                None => {
                    return false;
                },
            }
            vpn = vpn + 1;
        }
        true
    }

    /// Maps the pages `[start_vpn, end_vpn)`, each to a fresh frame, with
    /// `perm`, as one new area.
    pub fn push_area(
        &mut self,
        start_vpn: usize,
        end_vpn: usize,
        perm: MapPermission,
        frames: &mut FrameAllocator,
    )
        requires
            old(self).wf(),
            old(frames).wf(),
            old(self).backed_by(*old(frames)),
            start_vpn <= end_vpn,
            forall|vpn: usize|
                start_vpn <= vpn < end_vpn ==> !old(self).mapped(vpn),
            old(frames).free_count() >= end_vpn - start_vpn,
        ensures
            final(self).wf(),
            final(frames).wf(),
            final(self).backed_by(*final(frames)),
            final(frames).start_spec() == old(frames).start_spec(),
            final(frames).end_spec() == old(frames).end_spec(),
            final(self).heap_bottom == old(self).heap_bottom,
            final(self).program_brk == old(self).program_brk,
            final(self).areas@ == old(self).areas@.push(final(self).areas@.last()),
            final(self).areas@.last().start_vpn == start_vpn,
            final(self).areas@.last().end_vpn == end_vpn,
            final(self).areas@.last().perm == perm,
            distinct(final(self).areas@.last().frames@),
            forall|k: int|
                0 <= k < final(self).areas@.last().frames@.len() ==> !old(frames).is_allocated(
                    #[trigger] final(self).areas@.last().frames@[k],
                ),
            forall|q: usize|
                #[trigger] final(frames).is_allocated(q) == (old(frames).is_allocated(q)
                    || final(self).areas@.last().frames@.contains(q)),
            final(frames).free_count() == old(frames).free_count() - (end_vpn - start_vpn),
            forall|q: usize|
                #[trigger] final(self).owns(q) == (old(self).owns(q)
                    || final(self).areas@.last().frames@.contains(q)),
            forall|vpn: usize|
                start_vpn <= vpn < end_vpn ==> (#[trigger] final(self).translate_spec(vpn) matches Some(e) && e.valid && e.perm
                    == final(self).areas@.last().perm),
            forall|vpn: usize|
                !(start_vpn <= vpn < end_vpn) ==> #[trigger] final(self).translate_spec(vpn) == old(self).translate_spec(vpn),
    {
        let v = take_frames(frames, end_vpn - start_vpn);
        let area = MapArea {
            start_vpn,
            end_vpn,
            perm,
            frames: v,
        };
        self.areas.push(area);
        proof {
            let before = old(self).areas@;
            let n = before.len() as int;
            let now = self.areas@;
            assert(now =~= before.push(now.last()));
            assert forall|i: int, j: int, vpn: usize| 0 <= i < j < now.len() implies !(
            #[trigger] now[i].covers(vpn) && #[trigger] now[j].covers(vpn)) by {
                if j == n && now[i].covers(vpn) {
                    assert(before[i].covers(vpn));
                    assert(old(self).mapped(vpn));
                }
            }
            assert forall|i: int, p: int, j: int, q: int|
                0 <= i < now.len() && 0 <= p < now[i].frames@.len() && 0 <= j < now.len() && 0 <= q
                    < now[j].frames@.len() && (i != j || p != q) implies #[trigger] now[i].frames@[p]
                != #[trigger] now[j].frames@[q] by {
                if i < n {
                    assert(before[i].frames@[p] == now[i].frames@[p]);
                    assert(old(self).owns(now[i].frames@[p]));
                }
                if j < n {
                    assert(before[j].frames@[q] == now[j].frames@[q]);
                    assert(old(self).owns(now[j].frames@[q]));
                }
            }
            assert forall|q: usize| #[trigger] self.owns(q) implies frames.is_allocated(q) by {
                let (i, p) = choose|i: int, p: int|
                    0 <= i < now.len() && 0 <= p < now[i].frames@.len()
                        && #[trigger] now[i].frames@[p] == q;
                if i < n {
                    assert(before[i].frames@[p] == q);
                    assert(old(self).owns(q));
                } else {
                    assert(now.last().frames@.contains(q));
                }
            }
            assert forall|q: usize|
                #[trigger] self.owns(q) == (old(self).owns(q) || now.last().frames@.contains(
                    q,
                )) by {
                if old(self).owns(q) {
                    let (i, p) = choose|i: int, p: int|
                        0 <= i < before.len() && 0 <= p < before[i].frames@.len()
                            && #[trigger] before[i].frames@[p] == q;
                    assert(now[i].frames@[p] == q);
                }
                if now.last().frames@.contains(q) {
                    let m = choose|m: int|
                        0 <= m < now.last().frames@.len() && now.last().frames@[m] == q;
                    assert(now[n].frames@[m] == q);
                }
                if self.owns(q) {
                    let (i, p) = choose|i: int, p: int|
                        0 <= i < now.len() && 0 <= p < now[i].frames@.len()
                            && #[trigger] now[i].frames@[p] == q;
                    if i < n {
                        assert(before[i].frames@[p] == q);
                    } else {
                        assert(now.last().frames@[p] == q);
                    }
                }
            }
            assert forall|vpn: usize| start_vpn <= vpn < end_vpn implies (
            #[trigger] self.translate_spec(vpn) matches Some(e) && e.valid && e.perm
                == now.last().perm) by {
                self.lemma_translate(n, vpn);
            }
            assert forall|vpn: usize| !(start_vpn <= vpn < end_vpn) implies #[trigger] self.translate_spec(
                vpn,
            ) == old(self).translate_spec(vpn) by {
                if old(self).mapped(vpn) {
                    let i = choose|i: int|
                        0 <= i < before.len() && (#[trigger] before[i]).covers(vpn);
                    assert(now[i] == before[i]);
                    self.lemma_translate(i, vpn);
                    old(self).lemma_translate(i, vpn);
                } else if self.mapped(vpn) {
                    let j = choose|j: int| 0 <= j < now.len() && (#[trigger] now[j]).covers(vpn);
                    if j < n {
                        assert(before[j].covers(vpn));
                    }
                }
            }
        }
    }

    /// Maps the pages that `[start_va, end_va)` touches, each to a fresh
    /// frame, with `perm` plus user access, as one new area.
    pub fn insert_framed_area(
        &mut self,
        start_va: usize,
        end_va: usize,
        perm: MapPermission,
        frames: &mut FrameAllocator,
    )
        requires
            old(self).wf(),
            old(frames).wf(),
            old(self).backed_by(*old(frames)),
            start_va <= end_va,
            forall|vpn: usize|
                vpn_floor(start_va) <= vpn < vpn_ceil(end_va) ==> !old(self).mapped(vpn),
            old(frames).free_count() >= vpn_ceil(end_va) - vpn_floor(start_va),
        ensures
            final(self).wf(),
            final(frames).wf(),
            final(self).backed_by(*final(frames)),
            final(frames).start_spec() == old(frames).start_spec(),
            final(frames).end_spec() == old(frames).end_spec(),
            final(self).heap_bottom == old(self).heap_bottom,
            final(self).program_brk == old(self).program_brk,
            final(self).areas@ == old(self).areas@.push(final(self).areas@.last()),
            final(self).areas@.last().start_vpn == vpn_floor(start_va),
            final(self).areas@.last().end_vpn == vpn_ceil(end_va),
            final(self).areas@.last().perm == (MapPermission {
                r: perm.r,
                w: perm.w,
                x: perm.x,
                u: true,
            }),
            distinct(final(self).areas@.last().frames@),
            forall|k: int|
                0 <= k < final(self).areas@.last().frames@.len() ==> !old(frames).is_allocated(
                    #[trigger] final(self).areas@.last().frames@[k],
                ),
            forall|q: usize|
                #[trigger] final(frames).is_allocated(q) == (old(frames).is_allocated(q)
                    || final(self).areas@.last().frames@.contains(q)),
            final(frames).free_count() == old(frames).free_count() - (vpn_ceil(end_va) - vpn_floor(
                start_va,
            )),
            forall|q: usize|
                #[trigger] final(self).owns(q) == (old(self).owns(q)
                    || final(self).areas@.last().frames@.contains(q)),
            forall|vpn: usize|
                vpn_floor(start_va) <= vpn < vpn_ceil(end_va) ==> (#[trigger] final(self).translate_spec(vpn) matches Some(e) && e.valid && e.perm
                    == final(self).areas@.last().perm),
            forall|vpn: usize|
                !(vpn_floor(start_va) <= vpn < vpn_ceil(end_va)) ==> #[trigger] final(self).translate_spec(vpn) == old(self).translate_spec(vpn),
    {
        let user = MapPermission { r: perm.r, w: perm.w, x: perm.x, u: true };
        self.push_area(floor_vpn(start_va), ceil_vpn(end_va), user, frames);
    }

    /// Unmaps the whole heap: its frames are freed, the heap area stays in
    /// place with no page, and the break goes back to the heap's floor.
    pub fn empty_heap(&mut self, frames: &mut FrameAllocator)
        requires
            old(self).wf(),
            old(frames).wf(),
            old(self).backed_by(*old(frames)),
        ensures
            final(self).wf(),
            final(frames).wf(),
            final(self).backed_by(*final(frames)),
            final(frames).start_spec() == old(frames).start_spec(),
            final(frames).end_spec() == old(frames).end_spec(),
            final(self).heap_bottom == old(self).heap_bottom,
            final(self).program_brk == old(self).heap_bottom,
            final(self).areas@ == old(self).areas@.update(0, final(self).areas@[0]),
            final(self).areas@[0].start_vpn == old(self).areas@[0].start_vpn,
            final(self).areas@[0].end_vpn == old(self).areas@[0].start_vpn,
            final(self).areas@[0].perm == old(self).areas@[0].perm,
            final(self).areas@[0].frames@.len() == 0,
            final(frames).free_count() == old(frames).free_count() + (old(self).areas@[0].end_vpn
                - old(self).areas@[0].start_vpn),
            forall|q: usize|
                #[trigger] final(frames).is_allocated(q) == (old(frames).is_allocated(q) && !old(
                    self).areas@[0].frames@.contains(q)),
            forall|q: usize|
                #[trigger] final(self).owns(q) == (old(self).owns(q) && !old(
                    self).areas@[0].frames@.contains(q)),
            forall|vpn: usize|
                #[trigger] final(self).translate_spec(vpn) == if old(self).areas@[0].covers(vpn) {
                    None
                } else {
                    old(self).translate_spec(vpn)
                },
    {
        let mut heap = self.areas.remove(0);
        let dropped = heap.frames.split_off(0);
        proof {
            let before = old(self).areas@;
            assert(before[0].wf());
            assert(dropped@ =~= before[0].frames@);
            assert forall|a: int, b: int| 0 <= a < b < dropped@.len() implies dropped@[a]
                != dropped@[b] by {
                assert(before[0].frames@[a] != before[0].frames@[b]);
            }
            assert forall|a: int| 0 <= a < dropped@.len() implies frames.is_allocated(
                #[trigger] dropped@[a],
            ) by {
                assert(old(self).owns(before[0].frames@[a]));
            }
        }
        release_frames(frames, &dropped);
        heap.end_vpn = heap.start_vpn;
        self.areas.insert(0, heap);
        self.program_brk = self.heap_bottom;
        proof {
            let before = old(self).areas@;
            let now = self.areas@;
            assert(now =~= before.update(0, now[0]));
            assert forall|i: int| 1 <= i < now.len() implies now[i] == before[i] by {}
            assert forall|q: usize|
                #[trigger] self.owns(q) == (old(self).owns(q) && !dropped@.contains(q)) by {
                if self.owns(q) {
                    let (i, p) = choose|i: int, p: int|
                        0 <= i < now.len() && 0 <= p < now[i].frames@.len()
                            && #[trigger] now[i].frames@[p] == q;
                    assert(before[i].frames@[p] == q);
                    if dropped@.contains(q) {
                        let m = choose|m: int| 0 <= m < dropped@.len() && dropped@[m] == q;
                        assert(before[0].frames@[m] != before[i].frames@[p]);
                    }
                }
                if old(self).owns(q) && !dropped@.contains(q) {
                    let (i, p) = choose|i: int, p: int|
                        0 <= i < before.len() && 0 <= p < before[i].frames@.len()
                            && #[trigger] before[i].frames@[p] == q;
                    if i == 0 {
                        assert(dropped@[p] == q);
                    }
                    assert(now[i].frames@[p] == q);
                }
            }
            assert forall|i: int, j: int, vpn: usize| 0 <= i < j < now.len() implies !(
            #[trigger] now[i].covers(vpn) && #[trigger] now[j].covers(vpn)) by {
                if now[i].covers(vpn) && now[j].covers(vpn) {
                    assert(now[j] == before[j]);
                    assert(before[i].covers(vpn));
                }
            }
            assert forall|i: int, p: int, j: int, q: int|
                0 <= i < now.len() && 0 <= p < now[i].frames@.len() && 0 <= j < now.len() && 0 <= q
                    < now[j].frames@.len() && (i != j || p != q) implies #[trigger] now[i].frames@[p]
                != #[trigger] now[j].frames@[q] by {
                assert(before[i].frames@[p] == now[i].frames@[p]);
                assert(before[j].frames@[q] == now[j].frames@[q]);
            }
            assert forall|vpn: usize|
                #[trigger] self.translate_spec(vpn) == if before[0].covers(vpn) {
                    None
                } else {
                    old(self).translate_spec(vpn)
                } by {
                if self.mapped(vpn) {
                    let j = choose|j: int| 0 <= j < now.len() && (#[trigger] now[j]).covers(vpn);
                    assert(now[j] == before[j]);
                    assert(!(before[0].covers(vpn) && before[j].covers(vpn)));
                    self.lemma_translate(j, vpn);
                    old(self).lemma_translate(j, vpn);
                } else if old(self).mapped(vpn) {
                    let i = choose|i: int|
                        0 <= i < before.len() && (#[trigger] before[i]).covers(vpn);
                    if i != 0 {
                        assert(now[i] == before[i]);
                        assert(now[i].covers(vpn));
                    }
                }
            }
        }
    }

    /// Unmaps the first area whose range is exactly `[start_vpn, end_vpn)`
    /// and frees its frames. An area after the heap is removed; the heap
    /// itself is emptied, with the break back at its floor. Reports
    /// whether there was such an area; without one nothing changes.
    pub fn remove_area_with_start_vpn(
        &mut self,
        start_vpn: usize,
        end_vpn: usize,
        frames: &mut FrameAllocator,
    ) -> (r: bool)
        requires
            old(self).wf(),
            old(frames).wf(),
            old(self).backed_by(*old(frames)),
        ensures
            final(self).wf(),
            final(frames).wf(),
            final(self).backed_by(*final(frames)),
            final(frames).start_spec() == old(frames).start_spec(),
            final(frames).end_spec() == old(frames).end_spec(),
            final(self).heap_bottom == old(self).heap_bottom,
            r == (find_area(old(self).areas@, start_vpn, end_vpn, 0) < old(self).areas@.len()),
            !r ==> *final(self) == *old(self) && *final(frames) == *old(frames),
            r ==> {
                let k = find_area(old(self).areas@, start_vpn, end_vpn, 0);
                &&& 0 <= k < old(self).areas@.len()
                &&& old(self).areas@[k].start_vpn == start_vpn
                &&& old(self).areas@[k].end_vpn == end_vpn
                &&& k >= 1 ==> final(self).areas@ == old(self).areas@.remove(k) && final(
                    self).program_brk == old(self).program_brk
                &&& k == 0 ==> {
                    &&& final(self).areas@ == old(self).areas@.update(0, final(self).areas@[0])
                    &&& final(self).areas@[0].start_vpn == start_vpn
                    &&& final(self).areas@[0].end_vpn == start_vpn
                    &&& final(self).areas@[0].perm == old(self).areas@[0].perm
                    &&& final(self).areas@[0].frames@.len() == 0
                    &&& final(self).program_brk == old(self).heap_bottom
                }
                &&& final(frames).free_count() == old(frames).free_count() + (end_vpn - start_vpn)
                &&& forall|q: usize|
                    #[trigger] final(frames).is_allocated(q) == (old(frames).is_allocated(q)
                        && !old(self).areas@[k].frames@.contains(q))
                &&& forall|q: usize|
                    #[trigger] final(self).owns(q) == (old(self).owns(q) && !old(
                        self).areas@[k].frames@.contains(q))
                &&& forall|vpn: usize|
                    #[trigger] final(self).translate_spec(vpn) == if old(self).areas@[k].covers(
                        vpn,
                    ) {
                        None
                    } else {
                        old(self).translate_spec(vpn)
                    }
            },
    {
        if self.areas[0].start_vpn == start_vpn && self.areas[0].end_vpn == end_vpn {
            self.empty_heap(frames);
            true
        } else {
            self.remove_later_area(start_vpn, end_vpn, frames)
        }
    }

    /// Removes the first area after the heap whose range is exactly
    /// `[start_vpn, end_vpn)` and frees its frames. Reports whether there
    /// was such an area; without one nothing changes.
    pub fn remove_later_area(
        &mut self,
        start_vpn: usize,
        end_vpn: usize,
        frames: &mut FrameAllocator,
    ) -> (r: bool)
        requires
            old(self).wf(),
            old(frames).wf(),
            old(self).backed_by(*old(frames)),
        ensures
            final(self).wf(),
            final(frames).wf(),
            final(self).backed_by(*final(frames)),
            final(frames).start_spec() == old(frames).start_spec(),
            final(frames).end_spec() == old(frames).end_spec(),
            final(self).heap_bottom == old(self).heap_bottom,
            final(self).program_brk == old(self).program_brk,
            r == (find_area(old(self).areas@, start_vpn, end_vpn, 1) < old(self).areas@.len()),
            !r ==> *final(self) == *old(self) && *final(frames) == *old(frames),
            r ==> {
                let k = find_area(old(self).areas@, start_vpn, end_vpn, 1);
                &&& 1 <= k < old(self).areas@.len()
                &&& old(self).areas@[k].start_vpn == start_vpn
                &&& old(self).areas@[k].end_vpn == end_vpn
                &&& final(self).areas@ == old(self).areas@.remove(k)
                &&& final(frames).free_count() == old(frames).free_count() + (end_vpn - start_vpn)
                &&& forall|q: usize|
                    #[trigger] final(frames).is_allocated(q) == (old(frames).is_allocated(q)
                        && !old(self).areas@[k].frames@.contains(q))
                &&& forall|q: usize|
                    #[trigger] final(self).owns(q) == (old(self).owns(q) && !old(self).areas@[k].frames@.contains(q))
                &&& forall|vpn: usize|
                    #[trigger] final(self).translate_spec(vpn) == if old(self).areas@[k].covers(
                        vpn,
                    ) {
                        None
                    } else {
                        old(self).translate_spec(vpn)
                    }
            },
    {
        let mut k: usize = 1;
        while k < self.areas.len() && !(self.areas[k].start_vpn == start_vpn
            && self.areas[k].end_vpn == end_vpn)
            invariant
                1 <= k <= self.areas@.len(),
                *self == *old(self),
                find_area(self.areas@, start_vpn, end_vpn, 1) == find_area(
                    self.areas@,
                    start_vpn,
                    end_vpn,
                    k as int,
                ),
            decreases self.areas@.len() - k,
        {
            k = k + 1;
        }
        if k >= self.areas.len() {
            return false;
        }
        let area = self.areas.remove(k);
        proof {
            let before = old(self).areas@;
            let now = self.areas@;
            assert(area == before[k as int]);
            assert forall|i: int| 0 <= i < now.len() implies now[i] == before[if i < k {
                i
            } else {
                i + 1
            }] by {}
            assert forall|i: int| 0 <= i < area.frames@.len() implies frames.is_allocated(
                #[trigger] area.frames@[i],
            ) by {
                assert(old(self).owns(before[k as int].frames@[i]));
            }
            assert(distinct(area.frames@)) by {
                assert forall|i: int, j: int| 0 <= i < j < area.frames@.len() implies area.frames@[i]
                    != area.frames@[j] by {
                    assert(before[k as int].frames@[i] != before[k as int].frames@[j]);
                }
            }
        }
        release_frames(frames, &area.frames);
        proof {
            let before = old(self).areas@;
            let now = self.areas@;
            assert forall|i: int, j: int, vpn: usize| 0 <= i < j < now.len() implies !(
            #[trigger] now[i].covers(vpn) && #[trigger] now[j].covers(vpn)) by {
                let i0 = if i < k { i } else { i + 1 };
                let j0 = if j < k { j } else { j + 1 };
                assert(now[i] == before[i0] && now[j] == before[j0]);
                assert(!(before[i0].covers(vpn) && before[j0].covers(vpn)));
            }
            assert forall|i: int, p: int, j: int, q: int|
                0 <= i < now.len() && 0 <= p < now[i].frames@.len() && 0 <= j < now.len() && 0 <= q
                    < now[j].frames@.len() && (i != j || p != q) implies #[trigger] now[i].frames@[p]
                != #[trigger] now[j].frames@[q] by {
                let i0 = if i < k { i } else { i + 1 };
                let j0 = if j < k { j } else { j + 1 };
                assert(now[i] == before[i0] && now[j] == before[j0]);
                assert(before[i0].frames@[p] != before[j0].frames@[q]);
            }
            assert forall|q: usize| #[trigger] self.owns(q) implies frames.is_allocated(q) by {
                let (i, p) = choose|i: int, p: int|
                    0 <= i < now.len() && 0 <= p < now[i].frames@.len()
                        && #[trigger] now[i].frames@[p] == q;
                let i0 = if i < k { i } else { i + 1 };
                assert(now[i] == before[i0]);
                assert(before[i0].frames@[p] == q);
                assert(old(self).owns(q));
                if area.frames@.contains(q) {
                    let m = choose|m: int| 0 <= m < area.frames@.len() && area.frames@[m] == q;
                    assert(before[k as int].frames@[m] == before[i0].frames@[p]);
                }
            }
            assert forall|q: usize|
                #[trigger] self.owns(q) == (old(self).owns(q) && !area.frames@.contains(q)) by {
                if self.owns(q) {
                    let (i, p) = choose|i: int, p: int|
                        0 <= i < now.len() && 0 <= p < now[i].frames@.len()
                            && #[trigger] now[i].frames@[p] == q;
                    let i0 = if i < k { i } else { i + 1 };
                    assert(now[i] == before[i0]);
                    assert(before[i0].frames@[p] == q);
                    if area.frames@.contains(q) {
                        let m = choose|m: int|
                            0 <= m < area.frames@.len() && area.frames@[m] == q;
                        assert(before[k as int].frames@[m] == before[i0].frames@[p]);
                    }
                }
                if old(self).owns(q) && !area.frames@.contains(q) {
                    let (i, p) = choose|i: int, p: int|
                        0 <= i < before.len() && 0 <= p < before[i].frames@.len()
                            && #[trigger] before[i].frames@[p] == q;
                    if i == k {
                        assert(area.frames@[p] == q);
                    }
                    let i1 = if i < k { i } else { i - 1 };
                    assert(now[i1] == before[i]);
                    assert(now[i1].frames@[p] == q);
                }
            }
            assert forall|vpn: usize|
                #[trigger] self.translate_spec(vpn) == if before[k as int].covers(vpn) {
                    None
                } else {
                    old(self).translate_spec(vpn)
                } by {
                if self.mapped(vpn) {
                    let j = choose|j: int| 0 <= j < now.len() && (#[trigger] now[j]).covers(vpn);
                    let j0 = if j < k { j } else { j + 1 };
                    assert(now[j] == before[j0]);
                    assert(!(before[j0].covers(vpn) && before[k as int].covers(vpn)));
                    self.lemma_translate(j, vpn);
                    old(self).lemma_translate(j0, vpn);
                } else if old(self).mapped(vpn) {
                    let i = choose|i: int|
                        0 <= i < before.len() && (#[trigger] before[i]).covers(vpn);
                    if i != k {
                        let i1 = if i < k { i } else { i - 1 };
                        assert(now[i1] == before[i]);
                        assert(now[i1].covers(vpn));
                    }
                }
            }
        }
        true
    }

    /// Whether frame `ppn` backs some page of the first `n` areas.
    pub open spec fn owns_upto(&self, n: int, ppn: usize) -> bool {
        exists|i: int, p: int|
            0 <= i < n && i < self.areas@.len() && 0 <= p < self.areas@[i].frames@.len()
                && #[trigger] self.areas@[i].frames@[p] == ppn
    }

    /// Tears the address space down: every frame it owns goes back to the
    /// allocator.
    pub fn destroy(self, frames: &mut FrameAllocator)
        requires
            self.wf(),
            old(frames).wf(),
            self.backed_by(*old(frames)),
        ensures
            final(frames).wf(),
            final(frames).start_spec() == old(frames).start_spec(),
            final(frames).end_spec() == old(frames).end_spec(),
            final(frames).free_count() == old(frames).free_count() + self.page_count(),
            forall|q: usize|
                #[trigger] final(frames).is_allocated(q) == (old(frames).is_allocated(q)
                    && !self.owns(q)),
    {
        let mut i: usize = 0;
        while i < self.areas.len()
            invariant
                i <= self.areas@.len(),
                self.wf(),
                self.backed_by(*old(frames)),
                frames.wf(),
                frames.start_spec() == old(frames).start_spec(),
                frames.end_spec() == old(frames).end_spec(),
                frames.free_count() == old(frames).free_count() + self.pages_upto(i as int),
                forall|q: usize|
                    #[trigger] frames.is_allocated(q) == (old(frames).is_allocated(q)
                        && !self.owns_upto(i as int, q)),
            decreases self.areas@.len() - i,
        {
            let ghost mid = *frames;
            let v = &self.areas[i].frames;
            proof {
                assert forall|a: int, b: int| 0 <= a < b < v@.len() implies v@[a] != v@[b] by {
                    assert(self.areas@[i as int].frames@[a] != self.areas@[i as int].frames@[b]);
                }
                assert forall|a: int| 0 <= a < v@.len() implies frames.is_allocated(
                    #[trigger] v@[a],
                ) by {
                    let q = self.areas@[i as int].frames@[a];
                    assert(self.owns(q));
                    if self.owns_upto(i as int, q) {
                        let (j, p) = choose|j: int, p: int|
                            0 <= j < i && j < self.areas@.len() && 0 <= p
                                < self.areas@[j].frames@.len() && #[trigger] self.areas@[j].frames@[p]
                                == q;
                        assert(self.areas@[j].frames@[p] != self.areas@[i as int].frames@[a]);
                    }
                }
            }
            release_frames(frames, v);
            proof {
                assert forall|q: usize|
                    #[trigger] frames.is_allocated(q) == (old(frames).is_allocated(q)
                        && !self.owns_upto(i + 1, q)) by {
                    assert(frames.is_allocated(q) == (mid.is_allocated(q) && !v@.contains(q)));
                    if v@.contains(q) {
                        let m = choose|m: int| 0 <= m < v@.len() && v@[m] == q;
                        assert(self.areas@[i as int].frames@[m] == q);
                        assert(self.owns_upto(i + 1, q));
                    }
                    if self.owns_upto(i as int, q) {
                        let (j, p) = choose|j: int, p: int|
                            0 <= j < i && j < self.areas@.len() && 0 <= p
                                < self.areas@[j].frames@.len() && #[trigger] self.areas@[j].frames@[p]
                                == q;
                        assert(self.owns_upto(i + 1, q));
                    }
                    if self.owns_upto(i + 1, q) && !self.owns_upto(i as int, q) {
                        let (j, p) = choose|j: int, p: int|
                            0 <= j < i + 1 && j < self.areas@.len() && 0 <= p
                                < self.areas@[j].frames@.len() && #[trigger] self.areas@[j].frames@[p]
                                == q;
                        assert(j == i);
                        assert(v@[p] == q);
                    }
                }
            }
            i = i + 1;
        }
        proof {
            assert forall|q: usize| self.owns_upto(self.areas@.len() as int, q) == self.owns(
                q,
            ) by {
                if self.owns(q) {
                    let (j, p) = choose|j: int, p: int|
                        0 <= j < self.areas@.len() && 0 <= p < self.areas@[j].frames@.len()
                            && #[trigger] self.areas@[j].frames@[p] == q;
                    assert(self.owns_upto(self.areas@.len() as int, q));
                }
            }
        }
    }

    /// The page count of a prefix of the areas never exceeds that of a
    /// longer prefix.
    pub proof fn lemma_pages_monotone(&self, i: int, j: int)
        requires
            0 <= i <= j,
        ensures
            0 <= self.pages_upto(i) <= self.pages_upto(j),
        decreases j,
    {
        if i < j {
            self.lemma_pages_monotone(i, j - 1);
        } else if i > 0 {
            self.lemma_pages_monotone(i - 1, i - 1);
        }
    }

    /// Number of mapped pages, or `None` if it does not fit a `usize`.
    pub fn page_total(&self) -> (r: Option<usize>)
        ensures
            r matches Some(n) ==> n == self.page_count(),
            r is None ==> self.page_count() > usize::MAX,
    {
        let mut total: usize = 0;
        let mut i: usize = 0;
        while i < self.areas.len()
            invariant
                i <= self.areas@.len(),
                total == self.pages_upto(i as int),
            decreases self.areas@.len() - i,
        {
            let n = self.areas[i].frames.len();
            if n > usize::MAX - total {
                proof {
                    self.lemma_pages_monotone(i + 1, self.areas@.len() as int);
                }
                return None;
            }
            total = total + n;
            i = i + 1;
        }
        Some(total)
    }

    /// A duplicate of this address space for a forked task: the same areas
    /// over the same page ranges with the same permissions, every page on
    /// a frame of its own taken from `frames`.
    pub fn fork_copy(&self, frames: &mut FrameAllocator) -> (child: MemorySet)
        requires
            self.wf(),
            old(frames).wf(),
            old(frames).free_count() >= self.page_count(),
        ensures
            child.wf(),
            final(frames).wf(),
            child.backed_by(*final(frames)),
            final(frames).start_spec() == old(frames).start_spec(),
            final(frames).end_spec() == old(frames).end_spec(),
            child.heap_bottom == self.heap_bottom,
            child.program_brk == self.program_brk,
            child.areas@.len() == self.areas@.len(),
            forall|i: int|
                0 <= i < self.areas@.len() ==> {
                    &&& (#[trigger] child.areas@[i]).start_vpn == self.areas@[i].start_vpn
                    &&& child.areas@[i].end_vpn == self.areas@[i].end_vpn
                    &&& child.areas@[i].perm == self.areas@[i].perm
                },
            final(frames).free_count() == old(frames).free_count() - self.page_count(),
            forall|q: usize| #[trigger] child.owns(q) ==> !old(frames).is_allocated(q),
            forall|q: usize|
                #[trigger] final(frames).is_allocated(q) == (old(frames).is_allocated(q)
                    || child.owns(q)),
            forall|vpn: usize|
                match (self.translate_spec(vpn), #[trigger] child.translate_spec(vpn)) {
                    (Some(a), Some(b)) => a.valid == b.valid && a.perm == b.perm,
                    (None, None) => true,
                    _ => false,
                },
    {
        let mut areas: Vec<MapArea> = Vec::new();
        let mut i: usize = 0;
        while i < self.areas.len()
            invariant
                i <= self.areas@.len(),
                areas@.len() == i,
                self.wf(),
                frames.wf(),
                frames.start_spec() == old(frames).start_spec(),
                frames.end_spec() == old(frames).end_spec(),
                old(frames).free_count() >= self.page_count(),
                frames.free_count() == old(frames).free_count() - self.pages_upto(i as int),
                forall|a: int|
                    0 <= a < i ==> {
                        &&& (#[trigger] areas@[a]).start_vpn == self.areas@[a].start_vpn
                        &&& areas@[a].end_vpn == self.areas@[a].end_vpn
                        &&& areas@[a].perm == self.areas@[a].perm
                        &&& areas@[a].frames@.len() == self.areas@[a].frames@.len()
                    },
                forall|a: int, p: int, b: int, q: int|
                    0 <= a < i && 0 <= p < areas@[a].frames@.len() && 0 <= b < i && 0 <= q
                        < areas@[b].frames@.len() && (a != b || p != q)
                        ==> #[trigger] areas@[a].frames@[p] != #[trigger] areas@[b].frames@[q],
                forall|a: int, p: int|
                    0 <= a < i && 0 <= p < areas@[a].frames@.len() ==> !old(frames).is_allocated(
                        #[trigger] areas@[a].frames@[p],
                    ) && frames.is_allocated(areas@[a].frames@[p]),
                forall|q: usize|
                    #[trigger] frames.is_allocated(q) ==> old(frames).is_allocated(q) || exists|
                        a: int,
                        p: int,
                    |
                        0 <= a < i && 0 <= p < areas@[a].frames@.len()
                            && #[trigger] areas@[a].frames@[p] == q,
                forall|q: usize| old(frames).is_allocated(q) ==> #[trigger] frames.is_allocated(q),
            decreases self.areas@.len() - i,
        {
            let src = &self.areas[i];
            proof {
                self.lemma_pages_monotone(i + 1, self.areas@.len() as int);
            }
            let ghost mid = *frames;
            let ghost prev = areas@;
            let v = take_frames(frames, src.frames.len());
            let area = MapArea {
                start_vpn: src.start_vpn,
                end_vpn: src.end_vpn,
                perm: src.perm,
                frames: v,
            };
            areas.push(area);
            proof {
                let now = areas@;
                assert forall|a: int| 0 <= a < i implies now[a] == prev[a] by {}
                assert forall|a: int, p: int|
                    0 <= a < i + 1 && 0 <= p < now[a].frames@.len() implies !old(frames).is_allocated(#[trigger] now[a].frames@[p]) && frames.is_allocated(
                    now[a].frames@[p],
                ) by {
                    if a < i {
                        assert(now[a] == prev[a]);
                        assert(mid.is_allocated(prev[a].frames@[p]));
                    } else {
                        assert(!mid.is_allocated(v@[p]));
                        assert(v@.contains(v@[p]));
                    }
                }
                assert forall|a: int, p: int, b: int, q: int|
                    0 <= a < i + 1 && 0 <= p < now[a].frames@.len() && 0 <= b < i + 1 && 0 <= q
                        < now[b].frames@.len() && (a != b || p != q) implies #[trigger] now[a].frames@[p]
                    != #[trigger] now[b].frames@[q] by {
                    if a < i {
                        assert(now[a] == prev[a]);
                        assert(mid.is_allocated(prev[a].frames@[p]));
                    } else {
                        assert(!mid.is_allocated(v@[p]));
                    }
                    if b < i {
                        assert(now[b] == prev[b]);
                        assert(mid.is_allocated(prev[b].frames@[q]));
                    } else {
                        assert(!mid.is_allocated(v@[q]));
                    }
                }
                assert forall|q: usize| #[trigger] frames.is_allocated(q) implies old(frames).is_allocated(q) || exists|a: int, p: int|
                    0 <= a < i + 1 && 0 <= p < now[a].frames@.len()
                        && #[trigger] now[a].frames@[p] == q by {
                    if mid.is_allocated(q) {
                        if !old(frames).is_allocated(q) {
                            let (a, p) = choose|a: int, p: int|
                                0 <= a < i && 0 <= p < prev[a].frames@.len()
                                    && #[trigger] prev[a].frames@[p] == q;
                            assert(now[a].frames@[p] == q);
                        }
                    } else {
                        assert(v@.contains(q));
                        let m = choose|m: int| 0 <= m < v@.len() && v@[m] == q;
                        assert(now[i as int].frames@[m] == q);
                    }
                }
            }
            i = i + 1;
        }
        let child = MemorySet {
            areas,
            heap_bottom: self.heap_bottom,
            program_brk: self.program_brk,
        };
        proof {
            assert forall|a: int, b: int, vpn: usize| 0 <= a < b < child.areas@.len() implies !(
            #[trigger] child.areas@[a].covers(vpn) && #[trigger] child.areas@[b].covers(vpn)) by {
                assert(!(self.areas@[a].covers(vpn) && self.areas@[b].covers(vpn)));
            }
            assert forall|a: int| 0 <= a < child.areas@.len() implies (
            #[trigger] child.areas@[a]).wf() by {
                assert(self.areas@[a].wf());
            }
            assert forall|q: usize| #[trigger] child.owns(q) implies !old(frames).is_allocated(q)
                && frames.is_allocated(q) by {
                let (a, p) = choose|a: int, p: int|
                    0 <= a < child.areas@.len() && 0 <= p < child.areas@[a].frames@.len()
                        && #[trigger] child.areas@[a].frames@[p] == q;
                assert(!old(frames).is_allocated(child.areas@[a].frames@[p]));
            }
            assert forall|q: usize|
                #[trigger] frames.is_allocated(q) == (old(frames).is_allocated(q) || child.owns(
                    q,
                )) by {
                if frames.is_allocated(q) && !old(frames).is_allocated(q) {
                    let (a, p) = choose|a: int, p: int|
                        0 <= a < child.areas@.len() && 0 <= p < child.areas@[a].frames@.len()
                            && #[trigger] child.areas@[a].frames@[p] == q;
                    assert(child.owns(q));
                }
            }
            assert forall|vpn: usize|
                match (self.translate_spec(vpn), #[trigger] child.translate_spec(vpn)) {
                    (Some(a), Some(b)) => a.valid == b.valid && a.perm == b.perm,
                    (None, None) => true,
                    _ => false,
                } by {
                if self.mapped(vpn) {
                    let a = choose|a: int|
                        0 <= a < self.areas@.len() && (#[trigger] self.areas@[a]).covers(vpn);
                    assert(child.areas@[a].covers(vpn));
                    self.lemma_translate(a, vpn);
                    child.lemma_translate(a, vpn);
                } else if child.mapped(vpn) {
                    let a = choose|a: int|
                        0 <= a < child.areas@.len() && (#[trigger] child.areas@[a]).covers(vpn);
                    assert(self.areas@[a].covers(vpn));
                }
            }
        }
        child
    }

    /// Whether the break can move by `delta` bytes: the new break stays at
    /// or above the heap's floor and within the address range, and the
    /// pages that growth adds are unmapped and have free frames waiting.
    pub open spec fn heap_admissible(&self, frames: FrameAllocator, delta: i32) -> bool {
        let nb = self.program_brk + delta;
        let old_end = self.areas@[0].end_vpn;
        &&& self.heap_bottom <= nb <= usize::MAX
        &&& (vpn_ceil(nb as usize) > old_end ==> frames.free_count() >= vpn_ceil(nb as usize)
            - old_end && forall|vpn: usize|
            old_end <= vpn < vpn_ceil(nb as usize) ==> !self.mapped(vpn))
    }

    /// Moves the break by `delta` bytes and returns the new break. Growth
    /// maps each added page to a fresh frame; shrinking frees the frames of
    /// the pages that fall away. A move that is not admissible changes
    /// nothing and returns `None`.
    pub fn adjust_heap(&mut self, delta: i32, frames: &mut FrameAllocator) -> (r: Option<usize>)
        requires
            old(self).wf(),
            old(frames).wf(),
            old(self).backed_by(*old(frames)),
        ensures
            final(self).wf(),
            final(frames).wf(),
            final(self).backed_by(*final(frames)),
            final(frames).start_spec() == old(frames).start_spec(),
            final(frames).end_spec() == old(frames).end_spec(),
            r is Some == old(self).heap_admissible(*old(frames), delta),
            r is None ==> *final(self) == *old(self) && *final(frames) == *old(frames),
            r matches Some(nb) ==> {
                let was = old(self).areas@[0];
                let now = final(self).areas@[0];
                &&& nb == old(self).program_brk + delta
                &&& final(self).program_brk == nb
                &&& final(self).heap_bottom == old(self).heap_bottom
                &&& final(self).areas@ == old(self).areas@.update(0, now)
                &&& now.start_vpn == was.start_vpn
                &&& now.end_vpn == vpn_ceil(nb)
                &&& now.perm == was.perm
                &&& forall|p: int|
                    0 <= p < was.frames@.len() && p < now.frames@.len() ==> now.frames@[p]
                        == was.frames@[p]
                &&& final(frames).free_count() == old(frames).free_count() - (now.end_vpn
                    - was.end_vpn)
                &&& forall|q: usize|
                    #[trigger] final(frames).is_allocated(q) == ((old(frames).is_allocated(q)
                        && !old(self).owns(q)) || final(self).owns(q))
                &&& forall|q: usize|
                    #[trigger] final(self).owns(q) && !old(self).owns(q) ==> !old(frames).is_allocated(q)
            },
    {
        let brk = self.program_brk;
        let new_brk: usize = if delta >= 0 {
            let d = delta as usize;
            if d > usize::MAX - brk {
                return None;
            }
            brk + d
        } else {
            let d = (0 - (delta as i64)) as usize;
            if d > brk || brk - d < self.heap_bottom {
                return None;
            }
            brk - d
        };
        let old_end = self.areas[0].end_vpn;
        let start = self.areas[0].start_vpn;
        let new_end = ceil_vpn(new_brk);
        if new_end > old_end {
            if frames.unused_count() < new_end - old_end {
                return None;
            }
            if !self.range_unmapped(old_end, new_end) {
                return None;
            }
        }
        let mut heap = self.areas.remove(0);
        let ghost was = heap;
        if new_end > old_end {
            let mut v = take_frames(frames, new_end - old_end);
            let ghost fresh = v@;
            heap.frames.append(&mut v);
            heap.end_vpn = new_end;
            self.areas.insert(0, heap);
            self.program_brk = new_brk;
            proof {
                let before = old(self).areas@;
                let now = self.areas@;
                assert(now =~= before.update(0, now[0]));
                assert forall|i: int| 1 <= i < now.len() implies now[i] == before[i] by {}
                assert(now[0].frames@ =~= was.frames@ + fresh);
                assert forall|q: usize|
                    #[trigger] self.owns(q) == (old(self).owns(q) || fresh.contains(q)) by {
                    if old(self).owns(q) {
                        let (i, p) = choose|i: int, p: int|
                            0 <= i < before.len() && 0 <= p < before[i].frames@.len()
                                && #[trigger] before[i].frames@[p] == q;
                        assert(now[i].frames@[p] == q);
                    }
                    if fresh.contains(q) {
                        let m = choose|m: int| 0 <= m < fresh.len() && fresh[m] == q;
                        assert(now[0].frames@[was.frames@.len() + m] == q);
                    }
                    if self.owns(q) {
                        let (i, p) = choose|i: int, p: int|
                            0 <= i < now.len() && 0 <= p < now[i].frames@.len()
                                && #[trigger] now[i].frames@[p] == q;
                        if i == 0 && p >= was.frames@.len() {
                            assert(fresh[p - was.frames@.len()] == q);
                        } else {
                            assert(before[i].frames@[p] == q);
                        }
                    }
                }
                assert forall|q: usize| fresh.contains(q) implies !old(frames).is_allocated(
                    q,
                ) by {
                    let m = choose|m: int| 0 <= m < fresh.len() && fresh[m] == q;
                    assert(!old(frames).is_allocated(fresh[m]));
                }
                assert forall|i: int, j: int, vpn: usize| 0 <= i < j < now.len() implies !(
                #[trigger] now[i].covers(vpn) && #[trigger] now[j].covers(vpn)) by {
                    if now[i].covers(vpn) && now[j].covers(vpn) {
                        assert(now[j] == before[j]);
                        if i == 0 {
                            if vpn >= old_end {
                                assert(before[j].covers(vpn));
                                assert(old(self).mapped(vpn));
                            } else {
                                assert(before[0].covers(vpn));
                            }
                        } else {
                            assert(now[i] == before[i]);
                        }
                    }
                }
                assert forall|i: int, p: int, j: int, q: int|
                    0 <= i < now.len() && 0 <= p < now[i].frames@.len() && 0 <= j < now.len() && 0
                        <= q < now[j].frames@.len() && (i != j || p != q) implies #[trigger] now[i].frames@[p]
                    != #[trigger] now[j].frames@[q] by {
                    let x = now[i].frames@[p];
                    let y = now[j].frames@[q];
                    let x_new = i == 0 && p >= was.frames@.len();
                    let y_new = j == 0 && q >= was.frames@.len();
                    if x_new {
                        assert(fresh[p - was.frames@.len()] == x);
                        assert(fresh.contains(x));
                    } else {
                        assert(before[i].frames@[p] == x);
                        assert(old(self).owns(x));
                    }
                    if y_new {
                        assert(fresh[q - was.frames@.len()] == y);
                        assert(fresh.contains(y));
                    } else {
                        assert(before[j].frames@[q] == y);
                        assert(old(self).owns(y));
                    }
                }
            }
        } else {
            let dropped = heap.frames.split_off(new_end - start);
            proof {
                let before = old(self).areas@;
                assert forall|a: int, b: int| 0 <= a < b < dropped@.len() implies dropped@[a]
                    != dropped@[b] by {
                    assert(before[0].frames@[a + (new_end - start)] != before[0].frames@[b + (
                    new_end - start)]);
                }
                assert forall|a: int| 0 <= a < dropped@.len() implies frames.is_allocated(
                    #[trigger] dropped@[a],
                ) by {
                    assert(before[0].frames@[a + (new_end - start)] == dropped@[a]);
                    assert(old(self).owns(dropped@[a]));
                }
            }
            release_frames(frames, &dropped);
            heap.end_vpn = new_end;
            self.areas.insert(0, heap);
            self.program_brk = new_brk;
            proof {
                let before = old(self).areas@;
                let now = self.areas@;
                let cut = new_end - start;
                assert(now =~= before.update(0, now[0]));
                assert forall|i: int| 1 <= i < now.len() implies now[i] == before[i] by {}
                assert forall|q: usize|
                    #[trigger] self.owns(q) == (old(self).owns(q) && !dropped@.contains(q)) by {
                    if self.owns(q) {
                        let (i, p) = choose|i: int, p: int|
                            0 <= i < now.len() && 0 <= p < now[i].frames@.len()
                                && #[trigger] now[i].frames@[p] == q;
                        assert(before[i].frames@[p] == q);
                        if dropped@.contains(q) {
                            let m = choose|m: int| 0 <= m < dropped@.len() && dropped@[m] == q;
                            assert(before[0].frames@[m + cut] != before[i].frames@[p]);
                        }
                    }
                    if old(self).owns(q) && !dropped@.contains(q) {
                        let (i, p) = choose|i: int, p: int|
                            0 <= i < before.len() && 0 <= p < before[i].frames@.len()
                                && #[trigger] before[i].frames@[p] == q;
                        if i == 0 && p >= cut {
                            assert(dropped@[p - cut] == q);
                        }
                        assert(now[i].frames@[p] == q);
                    }
                }
                assert forall|q: usize| dropped@.contains(q) implies old(self).owns(q) by {
                    let m = choose|m: int| 0 <= m < dropped@.len() && dropped@[m] == q;
                    assert(before[0].frames@[m + cut] == q);
                }
                assert forall|i: int, j: int, vpn: usize| 0 <= i < j < now.len() implies !(
                #[trigger] now[i].covers(vpn) && #[trigger] now[j].covers(vpn)) by {
                    if now[i].covers(vpn) && now[j].covers(vpn) {
                        assert(now[j] == before[j]);
                        assert(before[i].covers(vpn));
                    }
                }
                assert forall|i: int, p: int, j: int, q: int|
                    0 <= i < now.len() && 0 <= p < now[i].frames@.len() && 0 <= j < now.len() && 0
                        <= q < now[j].frames@.len() && (i != j || p != q) implies #[trigger] now[i].frames@[p]
                    != #[trigger] now[j].frames@[q] by {
                    assert(before[i].frames@[p] == now[i].frames@[p]);
                    assert(before[j].frames@[q] == now[j].frames@[q]);
                }
            }
        }
        Some(new_brk)
    }
}

} // verus!
