//! Building an address space from a loaded program image.
//!
//! The image loader hands over the segments of a program, its entry point
//! and the top of its user stack. From these the kernel lays out the
//! regions to map (the segments, the user stack below its top, and the
//! trap-context page near the top of the address range) and maps them
//! all, or none if they do not fit.

use vstd::prelude::*;
use crate::config::PAGE_SIZE;
use crate::frame::FrameAllocator;
use crate::kernel::{byte_of, store_bytes};
use crate::mm::{ceil_vpn, floor_vpn, vpn_ceil, vpn_floor, MapPermission, MemorySet};

verus! {

/// Bytes of user stack mapped below the stack top.
pub const USER_STACK_SIZE: usize = 8192;

/// One loadable segment: a virtual address range, its access rights,
/// and the bytes that the range starts with.
#[derive(Debug)]
pub struct Segment {
    pub start_va: usize,
    pub end_va: usize,
    pub perm: MapPermission,
    pub data: Vec<u8>,
}

/// What the image loader reports about a program.
pub struct LoadedImage {
    pub segments: Vec<Segment>,
    pub entry_point: usize,
    pub user_stack_top: usize,
}

/// A page range to map with given access rights.
#[derive(Clone, Copy, PartialEq, Eq, Structural, Debug)]
pub struct Region {
    pub start_vpn: usize,
    pub end_vpn: usize,
    pub perm: MapPermission,
}

/// Whether two regions share a page.
pub open spec fn overlap(a: Region, b: Region) -> bool {
    a.start_vpn < a.end_vpn && b.start_vpn < b.end_vpn && a.start_vpn < b.end_vpn && b.start_vpn
        < a.end_vpn
}

/// Number of pages in the first `n` regions of `plan`.
pub open spec fn total_pages(plan: Seq<Region>, n: int) -> int
    decreases n,
{
    if n <= 0 {
        0
    } else {
        total_pages(plan, n - 1) + (plan[n - 1].end_vpn - plan[n - 1].start_vpn)
    }
}

/// Whether `plan` can be mapped with `free` frames: every range is
/// ordered, no two regions share a page, and there is a frame per page.
pub open spec fn plan_admissible(plan: Seq<Region>, free: nat) -> bool {
    &&& forall|i: int| 0 <= i < plan.len() ==> (#[trigger] plan[i]).start_vpn <= plan[i].end_vpn
    &&& forall|i: int, j: int| 0 <= i < j < plan.len() ==> !overlap(plan[i], plan[j])
    &&& total_pages(plan, plan.len() as int) <= free
}

/// The page count of a prefix of an ordered plan is not negative and
/// never exceeds that of a longer prefix.
pub proof fn lemma_total_pages_monotone(plan: Seq<Region>, i: int, j: int)
    requires
        0 <= i <= j <= plan.len(),
        forall|a: int| 0 <= a < plan.len() ==> (#[trigger] plan[a]).start_vpn <= plan[a].end_vpn,
    ensures
        0 <= total_pages(plan, i) <= total_pages(plan, j),
    decreases j,
{
    if i < j {
        lemma_total_pages_monotone(plan, i, j - 1);
    } else if i > 0 {
        lemma_total_pages_monotone(plan, i - 1, i - 1);
    }
}

/// Decides `plan_admissible`.
pub fn check_plan(plan: &Vec<Region>, free: usize) -> (r: bool)
    ensures
        r == plan_admissible(plan@, free as nat),
{
    let mut total: usize = 0;
    let mut i: usize = 0;
    while i < plan.len()
        invariant
            i <= plan@.len(),
            forall|a: int| 0 <= a < i ==> (#[trigger] plan@[a]).start_vpn <= plan@[a].end_vpn,
            forall|a: int, b: int| 0 <= a < b < i ==> !overlap(plan@[a], plan@[b]),
            total == total_pages(plan@, i as int),
            total <= free,
        decreases plan@.len() - i,
    {
        let r = plan[i];
        if r.start_vpn > r.end_vpn {
            return false;
        }
        let n = r.end_vpn - r.start_vpn;
        if n > free - total {
            proof {
                if plan_admissible(plan@, free as nat) {
                    lemma_total_pages_monotone(plan@, i + 1, plan@.len() as int);
                }
            }
            return false;
        }
        let mut j: usize = 0;
        while j < i
            invariant
                j <= i < plan@.len(),
                r == plan@[i as int],
                forall|a: int| 0 <= a < j ==> !overlap(plan@[a], r),
            decreases i - j,
        {
            let e = plan[j];
            if e.start_vpn < e.end_vpn && r.start_vpn < r.end_vpn && e.start_vpn < r.end_vpn
                && r.start_vpn < e.end_vpn {
                assert(overlap(plan@[j as int], plan@[i as int]));
                return false;
            }
            j = j + 1;
        }
        total = total + n;
        i = i + 1;
    }
    true
}

/// An address space with an empty heap at `heap_bottom` and one area per
/// region of `plan`, in order, each page on a fresh frame.
pub fn from_plan(plan: &Vec<Region>, heap_bottom: usize, frames: &mut FrameAllocator) -> (ms:
    MemorySet)
    requires
        old(frames).wf(),
        heap_bottom % PAGE_SIZE == 0,
        plan_admissible(plan@, old(frames).free_count()),
    ensures
        ms.wf(),
        final(frames).wf(),
        ms.backed_by(*final(frames)),
        final(frames).start_spec() == old(frames).start_spec(),
        final(frames).end_spec() == old(frames).end_spec(),
        ms.heap_bottom == heap_bottom,
        ms.program_brk == heap_bottom,
        ms.areas@.len() == plan@.len() + 1,
        forall|i: int|
            0 <= i < plan@.len() ==> {
                &&& (#[trigger] ms.areas@[i + 1]).start_vpn == plan@[i].start_vpn
                &&& ms.areas@[i + 1].end_vpn == plan@[i].end_vpn
                &&& ms.areas@[i + 1].perm == plan@[i].perm
            },
        final(frames).free_count() == old(frames).free_count() - total_pages(
            plan@,
            plan@.len() as int,
        ),
        forall|q: usize| #[trigger] ms.owns(q) ==> !old(frames).is_allocated(q),
        forall|q: usize|
            #[trigger] final(frames).is_allocated(q) == (old(frames).is_allocated(q) || ms.owns(q)),
{
    let mut ms = MemorySet::new(heap_bottom);
    let mut i: usize = 0;
    while i < plan.len()
        invariant
            i <= plan@.len(),
            ms.wf(),
            frames.wf(),
            ms.backed_by(*frames),
            plan_admissible(plan@, old(frames).free_count()),
            frames.start_spec() == old(frames).start_spec(),
            frames.end_spec() == old(frames).end_spec(),
            ms.heap_bottom == heap_bottom,
            ms.program_brk == heap_bottom,
            ms.areas@.len() == i + 1,
            ms.areas@[0].start_vpn == ms.areas@[0].end_vpn,
            forall|a: int|
                0 <= a < i ==> {
                    &&& (#[trigger] ms.areas@[a + 1]).start_vpn == plan@[a].start_vpn
                    &&& ms.areas@[a + 1].end_vpn == plan@[a].end_vpn
                    &&& ms.areas@[a + 1].perm == plan@[a].perm
                },
            frames.free_count() == old(frames).free_count() - total_pages(plan@, i as int),
            forall|q: usize| #[trigger] ms.owns(q) ==> !old(frames).is_allocated(q),
            forall|q: usize|
                #[trigger] frames.is_allocated(q) == (old(frames).is_allocated(q) || ms.owns(q)),
        decreases plan@.len() - i,
    {
        let r = plan[i];
        let ghost prev = ms;
        let ghost mid = *frames;
        proof {
            lemma_total_pages_monotone(plan@, i + 1, plan@.len() as int);
            assert forall|vpn: usize| r.start_vpn <= vpn < r.end_vpn implies !ms.mapped(vpn) by {
                if ms.mapped(vpn) {
                    let a = choose|a: int|
                        0 <= a < ms.areas@.len() && (#[trigger] ms.areas@[a]).covers(vpn);
                    if a > 0 {
                        assert(ms.areas@[(a - 1) + 1].start_vpn == plan@[a - 1].start_vpn);
                        assert(overlap(plan@[a - 1], plan@[i as int]));
                    }
                }
            }
        }
        ms.push_area(r.start_vpn, r.end_vpn, r.perm, frames);
        proof {
            let fresh = ms.areas@.last().frames@;
            assert forall|a: int| 0 <= a < i + 1 implies {
                &&& (#[trigger] ms.areas@[a + 1]).start_vpn == plan@[a].start_vpn
                &&& ms.areas@[a + 1].end_vpn == plan@[a].end_vpn
                &&& ms.areas@[a + 1].perm == plan@[a].perm
            } by {
                if a < i {
                    assert(ms.areas@[a + 1] == prev.areas@[a + 1]);
                }
            }
            assert(ms.areas@[0] == prev.areas@[0]);
            assert forall|q: usize| #[trigger] ms.owns(q) implies !old(frames).is_allocated(q) by {
                if fresh.contains(q) {
                    let m = choose|m: int| 0 <= m < fresh.len() && fresh[m] == q;
                    assert(!mid.is_allocated(fresh[m]));
                }
            }
            assert forall|q: usize|
                #[trigger] frames.is_allocated(q) == (old(frames).is_allocated(q) || ms.owns(
                    q,
                )) by {
                assert(frames.is_allocated(q) == (mid.is_allocated(q) || fresh.contains(q)));
                assert(mid.is_allocated(q) == (old(frames).is_allocated(q) || prev.owns(q)));
                assert(ms.owns(q) == (prev.owns(q) || fresh.contains(q)));
            }
        }
        i = i + 1;
    }
    ms
}

/// Page number of the trap-context page: the last page but one of the
/// address range.
pub open spec fn trap_context_page() -> usize {
    (usize::MAX / PAGE_SIZE - 1) as usize
}

/// Page number of the guard page: the page just below the user stack,
/// which stays unmapped.
pub open spec fn guard_page(img: LoadedImage) -> usize {
    (vpn_floor((img.user_stack_top - USER_STACK_SIZE) as usize) - 1) as usize
}

/// Whether the image can be laid out: every segment's range is ordered,
/// holds the segment's bytes and stays off the guard page, and the stack
/// top is page aligned with room for the stack and the guard page below
/// it.
pub open spec fn image_well_placed(img: LoadedImage) -> bool {
    &&& img.user_stack_top % PAGE_SIZE == 0
    &&& img.user_stack_top >= USER_STACK_SIZE + PAGE_SIZE
    &&& img.segments@.len() + 2 <= usize::MAX
    &&& forall|i: int|
        0 <= i < img.segments@.len() ==> (#[trigger] img.segments@[i]).start_va
            <= img.segments@[i].end_va && img.segments@[i].data@.len() <= img.segments@[i].end_va
            - img.segments@[i].start_va && !(vpn_floor(img.segments@[i].start_va) <= guard_page(img)
            < vpn_ceil(img.segments@[i].end_va))
}

/// The regions to map for an image, in order: each segment over the
/// pages it touches with user access added, the user stack (read, write,
/// user), and the trap-context page (read, write, no user access).
pub open spec fn plan_of(img: LoadedImage) -> Seq<Region> {
    Seq::new(
        img.segments@.len() + 2,
        |i: int|
            if i < img.segments@.len() {
                Region {
                    start_vpn: vpn_floor(img.segments@[i].start_va),
                    end_vpn: vpn_ceil(img.segments@[i].end_va),
                    perm: MapPermission {
                        r: img.segments@[i].perm.r,
                        w: img.segments@[i].perm.w,
                        x: img.segments@[i].perm.x,
                        u: true,
                    },
                }
            } else if i == img.segments@.len() {
                Region {
                    start_vpn: vpn_floor((img.user_stack_top - USER_STACK_SIZE) as usize),
                    end_vpn: vpn_floor(img.user_stack_top),
                    perm: MapPermission { r: true, w: true, x: false, u: true },
                }
            } else {
                Region {
                    start_vpn: trap_context_page(),
                    end_vpn: (trap_context_page() + 1) as usize,
                    perm: MapPermission { r: true, w: true, x: false, u: false },
                }
            },
    )
}

/// Lays out the regions of an image, or reports that it cannot be laid
/// out.
pub fn image_plan(img: &LoadedImage) -> (r: Option<Vec<Region>>)
    ensures
        r is Some == image_well_placed(*img),
        r matches Some(p) ==> p@ == plan_of(*img),
{
    if img.user_stack_top % PAGE_SIZE != 0 || img.user_stack_top < USER_STACK_SIZE + PAGE_SIZE {
        return None;
    }
    let guard = (img.user_stack_top - USER_STACK_SIZE) / PAGE_SIZE - 1;
    if img.segments.len() > usize::MAX - 2 {
        return None;
    }
    let mut plan: Vec<Region> = Vec::new();
    let mut i: usize = 0;
    while i < img.segments.len()
        invariant
            i <= img.segments@.len(),
            plan@.len() == i,
            forall|a: int|
                0 <= a < i ==> (#[trigger] img.segments@[a]).start_va <= img.segments@[a].end_va
                    && img.segments@[a].data@.len() <= img.segments@[a].end_va
                    - img.segments@[a].start_va && !(vpn_floor(img.segments@[a].start_va)
                    <= guard_page(*img) < vpn_ceil(img.segments@[a].end_va)),
            guard == guard_page(*img),
            forall|a: int| 0 <= a < i ==> #[trigger] plan@[a] == plan_of(*img)[a],
        decreases img.segments@.len() - i,
    {
        let s = &img.segments[i];
        if s.start_va > s.end_va || s.data.len() > s.end_va - s.start_va {
            return None;
        }
        if floor_vpn(s.start_va) <= guard && guard < ceil_vpn(s.end_va) {
            return None;
        }
        plan.push(
            Region {
                start_vpn: floor_vpn(s.start_va),
                end_vpn: ceil_vpn(s.end_va),
                perm: MapPermission { r: s.perm.r, w: s.perm.w, x: s.perm.x, u: true },
            },
        );
        i = i + 1;
    }
    plan.push(
        Region {
            start_vpn: floor_vpn(img.user_stack_top - USER_STACK_SIZE),
            end_vpn: floor_vpn(img.user_stack_top),
            perm: MapPermission { r: true, w: true, x: false, u: true },
        },
    );
    let t = usize::MAX / PAGE_SIZE - 1;
    plan.push(
        Region {
            start_vpn: t,
            end_vpn: t + 1,
            perm: MapPermission { r: true, w: true, x: false, u: false },
        },
    );
    assert(plan@ =~= plan_of(*img));
    Some(plan)
}


/// Whether address `a` holds a byte of one of the first `n` segments.
pub open spec fn in_segment_data(segments: Seq<Segment>, n: int, a: usize) -> bool {
    exists|t: int|
        0 <= t < n && t < segments.len() && (#[trigger] segments[t]).start_va <= a
            < segments[t].start_va + segments[t].data@.len()
}

/// Stores the bytes of every segment of `img` at the segment's start in
/// the address space `ms` built for the image. `memory[i]` is the page of
/// frame `start + i`.
pub fn load_segments(memory: &mut Vec<Vec<u8>>, start: usize, ms: &MemorySet, img: &LoadedImage)
    requires
        ms.wf(),
        image_well_placed(*img),
        ms.areas@.len() == img.segments@.len() + 3,
        forall|t: int|
            0 <= t < img.segments@.len() ==> (#[trigger] ms.areas@[t + 1]).start_vpn == vpn_floor(
                img.segments@[t].start_va,
            ) && ms.areas@[t + 1].end_vpn == vpn_ceil(img.segments@[t].end_va),
        forall|q: usize| #[trigger] ms.owns(q) ==> start <= q < start + old(memory)@.len(),
        forall|i: int| 0 <= i < old(memory)@.len() ==> (#[trigger] old(memory)@[i])@.len() == PAGE_SIZE,
    ensures
        final(memory)@.len() == old(memory)@.len(),
        forall|i: int|
            0 <= i < final(memory)@.len() ==> (#[trigger] final(memory)@[i])@.len() == PAGE_SIZE,
        forall|t: int, j: int|
            0 <= t < img.segments@.len() && 0 <= j < img.segments@[t].data@.len() ==> byte_of(
                final(memory)@,
                start as int,
                *ms,
                (img.segments@[t].start_va + j) as usize,
            ) == Some(#[trigger] img.segments@[t].data@[j]),
        forall|a: usize|
            !in_segment_data(img.segments@, img.segments@.len() as int, a) ==> #[trigger] byte_of(
                final(memory)@,
                start as int,
                *ms,
                a,
            ) == byte_of(old(memory)@, start as int, *ms, a),
        forall|q: usize|
            start <= q < start + old(memory)@.len() && !#[trigger] ms.owns(q) ==> final(memory)@[q
                - start] == old(memory)@[q - start],
{
    let mut s: usize = 0;
    while s < img.segments.len()
        invariant
            s <= img.segments@.len(),
            ms.wf(),
            image_well_placed(*img),
            ms.areas@.len() == img.segments@.len() + 3,
            forall|t: int|
                0 <= t < img.segments@.len() ==> (#[trigger] ms.areas@[t + 1]).start_vpn
                    == vpn_floor(img.segments@[t].start_va) && ms.areas@[t + 1].end_vpn == vpn_ceil(
                    img.segments@[t].end_va,
                ),
            forall|q: usize| #[trigger] ms.owns(q) ==> start <= q < start + old(memory)@.len(),
            memory@.len() == old(memory)@.len(),
            forall|i: int| 0 <= i < memory@.len() ==> (#[trigger] memory@[i])@.len() == PAGE_SIZE,
            forall|t: int, j: int|
                0 <= t < s && 0 <= j < img.segments@[t].data@.len() ==> byte_of(
                    memory@,
                    start as int,
                    *ms,
                    (img.segments@[t].start_va + j) as usize,
                ) == Some(#[trigger] img.segments@[t].data@[j]),
            forall|a: usize|
                !in_segment_data(img.segments@, s as int, a) ==> #[trigger] byte_of(
                    memory@,
                    start as int,
                    *ms,
                    a,
                ) == byte_of(old(memory)@, start as int, *ms, a),
            forall|q: usize|
                start <= q < start + old(memory)@.len() && !#[trigger] ms.owns(q) ==> memory@[q
                    - start] == old(memory)@[q - start],
        decreases img.segments@.len() - s,
    {
        let seg = &img.segments[s];
        let ghost prev = memory@;
        proof {
            assert(img.segments@[s as int].start_va <= img.segments@[s as int].end_va);
            assert forall|a: usize|
                seg.start_va <= a < seg.start_va + seg.data@.len() implies ms.mapped(
                #[trigger] vpn_floor(a),
            ) by {
                assert(ms.areas@[s + 1].covers(vpn_floor(a)));
            }
        }
        store_bytes(memory, start, ms, seg.start_va, &seg.data);
        proof {
            assert forall|t: int, j: int|
                0 <= t < s + 1 && 0 <= j < img.segments@[t].data@.len() implies byte_of(
                memory@,
                start as int,
                *ms,
                (img.segments@[t].start_va + j) as usize,
            ) == Some(#[trigger] img.segments@[t].data@[j]) by {
                let a = (img.segments@[t].start_va + j) as usize;
                assert(img.segments@[t].start_va <= img.segments@[t].end_va);
                if t < s {
                    assert(byte_of(prev, start as int, *ms, a) == Some(
                        img.segments@[t].data@[j],
                    ));
                    if seg.start_va <= a < seg.start_va + seg.data@.len() {
                        assert(ms.areas@[t + 1].covers(vpn_floor(a)));
                        assert(ms.areas@[s + 1].covers(vpn_floor(a)));
                    }
                }
            }
            assert forall|a: usize|
                !in_segment_data(img.segments@, s + 1, a) implies #[trigger] byte_of(
                memory@,
                start as int,
                *ms,
                a,
            ) == byte_of(old(memory)@, start as int, *ms, a) by {
                if seg.start_va <= a < seg.start_va + seg.data@.len() {
                    assert(img.segments@[s as int].start_va <= a);
                    assert(in_segment_data(img.segments@, s + 1, a));
                }
                if in_segment_data(img.segments@, s as int, a) {
                    let t = choose|t: int|
                        0 <= t < s && t < img.segments@.len() && (
                        #[trigger] img.segments@[t]).start_va <= a < img.segments@[t].start_va
                            + img.segments@[t].data@.len();
                    assert(img.segments@[t].start_va <= a);
                    assert(in_segment_data(img.segments@, s + 1, a));
                }
            }
        }
        s = s + 1;
    }
}

} // verus!
