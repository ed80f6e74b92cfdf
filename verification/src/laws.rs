//! Laws that relate several operations.

use vstd::prelude::*;
use crate::config::PAGE_SIZE;
use crate::frame::FrameAllocator;
use crate::image::{guard_page, image_well_placed, plan_of, LoadedImage};
use crate::kernel::Kernel;
use crate::task::{TaskControlBlock, TaskStatus};
use crate::mm::{find_area, vpn_ceil, vpn_floor, MapArea, MemorySet};
use crate::syscall::{
    is_image_space, port_perm, byte_writable, child_matches, first_zombie_child, has_child, wait_status, mmap_admissible, mmap_effect, munmap_admissible, munmap_effect, write_effect,
};

verus! {

/// If the area at index `n` has exactly the range `[start_vpn, end_vpn)`,
/// a search from `from <= n` ends at or before `n`, on an area with that
/// range.
pub proof fn lemma_find_area_finds(
    areas: Seq<MapArea>,
    start_vpn: usize,
    end_vpn: usize,
    from: int,
    n: int,
)
    requires
        0 <= from <= n < areas.len(),
        areas[n].start_vpn == start_vpn,
        areas[n].end_vpn == end_vpn,
    ensures
        from <= find_area(areas, start_vpn, end_vpn, from) <= n,
        areas[find_area(areas, start_vpn, end_vpn, from)].start_vpn == start_vpn,
        areas[find_area(areas, start_vpn, end_vpn, from)].end_vpn == end_vpn,
    decreases n - from,
{
    if !(areas[from].start_vpn == start_vpn && areas[from].end_vpn == end_vpn) {
        lemma_find_area_finds(areas, start_vpn, end_vpn, from + 1, n);
    }
}

/// Mapping a range and then unmapping the same range is a round trip: the
/// unmap request is granted, afterwards no page of the range translates,
/// exactly one frame per page of the range is freed, and the allocator
/// has the same frames handed out, and as many free, as before the map
/// request.
pub proof fn lemma_mmap_munmap_round_trip(
    k0: Kernel,
    k1: Kernel,
    k2: Kernel,
    start: usize,
    len: usize,
    port: usize,
)
    requires
        k0.wf(),
        k1.wf(),
        mmap_admissible(k0, start, len, port),
        mmap_effect(k0, k1, start, len, port),
        munmap_admissible(k1, start, len) ==> munmap_effect(k1, k2, start, len),
        !munmap_admissible(k1, start, len) ==> k2 == k1,
    ensures
        munmap_admissible(k1, start, len),
        forall|vpn: usize|
            vpn_floor(start) <= vpn < vpn_ceil((start + len) as usize)
                ==> #[trigger] k2.current.memory_set.translate_spec(vpn) is None,
        forall|vpn: usize|
            #[trigger] k2.current.memory_set.translate_spec(vpn)
                == k0.current.memory_set.translate_spec(vpn),
        k2.frames.free_count() == k1.frames.free_count() + (vpn_ceil((start + len) as usize)
            - vpn_floor(start)),
        k2.frames.free_count() == k1.frames.free_count() + (len + PAGE_SIZE - 1) / (
        PAGE_SIZE as int),
        k2.frames.free_count() == k0.frames.free_count(),
        forall|q: usize| #[trigger] k2.frames.is_allocated(q) == k0.frames.is_allocated(q),
{
    let first = vpn_floor(start);
    let last = vpn_ceil((start + len) as usize);
    let a0 = k0.current.memory_set.areas@;
    let a1 = k1.current.memory_set.areas@;
    let top = a0.len() as int;
    assert(a1[top] == a1.last());
    lemma_find_area_finds(a1, first, last, 0, top);
    let n = find_area(a1, first, last, 0);
    assert(munmap_admissible(k1, start, len));
    assert(a1[n].wf());
    assert(a1[top].wf());
    if first < last {
        assert(a1[n].covers(first));
        assert(a1[top].covers(first));
        assert(n == top);
    } else {
        assert(a1[n].frames@.len() == 0);
        assert(a1[top].frames@.len() == 0);
    }
    assert forall|q: usize| #[trigger] k2.frames.is_allocated(q) == k0.frames.is_allocated(q) by {
        if a1[top].frames@.contains(q) {
            let m = choose|m: int| 0 <= m < a1[top].frames@.len() && a1[top].frames@[m] == q;
            assert(!k0.frames.is_allocated(a1[top].frames@[m]));
        }
    }
    assert forall|vpn: usize|
        #[trigger] k2.current.memory_set.translate_spec(vpn)
            == k0.current.memory_set.translate_spec(vpn) by {
        if first <= vpn < last {
            assert(k0.current.memory_set.translate_spec(vpn) is None);
        }
    }
}


/// Address spaces are isolated: a write by the task on the processor
/// changes no byte that any address of any other task names. After a
/// fork this holds between parent and child, whichever of them runs.
pub proof fn lemma_write_is_private(k0: Kernel, k1: Kernel, va: usize, b: u8, i: int, other_va: usize)
    requires
        k0.wf(),
        byte_writable(k0, va),
        write_effect(k0, k1, va, b),
        0 <= i < k0.others@.len(),
    ensures
        k1.others@[i] == k0.others@[i],
        k1.byte_at(k1.others@[i].memory_set, other_va) == k0.byte_at(
            k0.others@[i].memory_set,
            other_va,
        ),
{
    let theirs = k0.others@[i].memory_set;
    let mine = k0.current.memory_set;
    mine.lemma_translate_owned(vpn_floor(va));
    if theirs.translate_spec(vpn_floor(other_va)) is Some {
        theirs.lemma_translate_owned(vpn_floor(other_va));
        let q = theirs.translate_spec(vpn_floor(other_va))->0.ppn;
        assert(theirs.owns(q));
        assert(!(k0.others@[i].memory_set.owns(q) && mine.owns(q)));
        assert(k0.frames.is_allocated(q));
    }
}

/// A write by the task on the processor is read back at the same address
/// and leaves every byte at every other address of the task as it was.
pub proof fn lemma_write_then_read(k0: Kernel, k1: Kernel, va: usize, b: u8, other_va: usize)
    requires
        k0.wf(),
        byte_writable(k0, va),
        write_effect(k0, k1, va, b),
    ensures
        k1.byte_at(k1.current.memory_set, va) == Some(b),
        other_va != va ==> k1.byte_at(k1.current.memory_set, other_va) == k0.byte_at(
            k0.current.memory_set,
            other_va,
        ),
{
    let mine = k0.current.memory_set;
    mine.lemma_translate_owned(vpn_floor(va));
    assert(k0.frames.is_allocated(mine.translate_spec(vpn_floor(va))->0.ppn));
    if other_va != va && mine.translate_spec(vpn_floor(other_va)) is Some {
        mine.lemma_translate_owned(vpn_floor(other_va));
        let q = mine.translate_spec(vpn_floor(other_va))->0.ppn;
        assert(k0.frames.is_allocated(q));
        if vpn_floor(other_va) != vpn_floor(va) {
            mine.lemma_distinct_pages(vpn_floor(va), vpn_floor(other_va));
        }
    }
}


/// Two frames taken one after the other, with nothing given back in
/// between, are different frames, and the pool is two frames shorter.
pub proof fn lemma_frames_taken_in_a_row_differ(
    a0: FrameAllocator,
    a1: FrameAllocator,
    a2: FrameAllocator,
    r1: usize,
    r2: usize,
)
    requires
        FrameAllocator::took(a0, a1, Some(r1)),
        FrameAllocator::took(a1, a2, Some(r2)),
    ensures
        r1 != r2,
        a2.free_count() == a0.free_count() - 2,
        a2.is_allocated(r1) && a2.is_allocated(r2),
{
    assert(a1.is_allocated(r1));
}

/// Giving back the frame that was just taken restores the pool and the
/// set of frames handed out.
pub proof fn lemma_take_then_give_back(
    a0: FrameAllocator,
    a1: FrameAllocator,
    a2: FrameAllocator,
    r: usize,
)
    requires
        FrameAllocator::took(a0, a1, Some(r)),
        FrameAllocator::gave_back(a1, a2, r),
    ensures
        a2.pool() == a0.pool(),
        a2.free_count() == a0.free_count(),
        forall|q: usize| #[trigger] a2.is_allocated(q) == a0.is_allocated(q),
{
    assert(a0.pool().drop_last().push(a0.pool().last()) =~= a0.pool());
}

/// A search for a zombie child finds none where no selected child of
/// `parent` at or after `from` is a zombie.
pub proof fn lemma_no_zombie_found(
    others: Seq<TaskControlBlock>,
    parent: usize,
    pid: isize,
    from: int,
)
    requires
        0 <= from,
        forall|i: int|
            from <= i < others.len() ==> !(child_matches(#[trigger] others[i], parent, pid)
                && others[i].status == TaskStatus::Zombie),
    ensures
        first_zombie_child(others, parent, pid, from) >= others.len(),
    decreases others.len() - from,
{
    if from < others.len() {
        lemma_no_zombie_found(others, parent, pid, from + 1);
    }
}

/// A search for a zombie child ends on a selected zombie child of
/// `parent`, at or before any index that holds one.
pub proof fn lemma_zombie_found(
    others: Seq<TaskControlBlock>,
    parent: usize,
    pid: isize,
    from: int,
    at: int,
)
    requires
        0 <= from <= at < others.len(),
        child_matches(others[at], parent, pid),
        others[at].status == TaskStatus::Zombie,
    ensures
        from <= first_zombie_child(others, parent, pid, from) <= at,
        child_matches(others[first_zombie_child(others, parent, pid, from)], parent, pid),
        others[first_zombie_child(others, parent, pid, from)].status == TaskStatus::Zombie,
    decreases at - from,
{
    if !(child_matches(others[from], parent, pid) && others[from].status == TaskStatus::Zombie) {
        lemma_zombie_found(others, parent, pid, from + 1, at);
    }
}

/// Waiting follows the life of a child. Where `at` holds the caller's only
/// selected child: while that child is no zombie the status is -2, and
/// once it is one the status is its pid.
pub proof fn lemma_wait_follows_the_child(k: Kernel, pid: isize, at: int)
    requires
        k.wf(),
        0 <= at < k.others@.len(),
        child_matches(k.others@[at], k.current.pid, pid),
        forall|i: int|
            0 <= i < k.others@.len() && i != at ==> !child_matches(
                #[trigger] k.others@[i],
                k.current.pid,
                pid,
            ),
    ensures
        k.others@[at].status != TaskStatus::Zombie ==> wait_status(k, pid) == -2,
        k.others@[at].status == TaskStatus::Zombie ==> wait_status(k, pid) == k.others@[at].pid,
{
    assert(has_child(k, pid));
    if k.others@[at].status == TaskStatus::Zombie {
        lemma_zombie_found(k.others@, k.current.pid, pid, 0, at);
    } else {
        lemma_no_zombie_found(k.others@, k.current.pid, pid, 0);
    }
}


/// Once the caller's only selected child has been reaped, waiting with
/// the same filter has status -1.
pub proof fn lemma_wait_after_reaping(k0: Kernel, k1: Kernel, pid: isize, at: int)
    requires
        0 <= at < k0.others@.len(),
        forall|i: int|
            0 <= i < k0.others@.len() && i != at ==> !child_matches(
                #[trigger] k0.others@[i],
                k0.current.pid,
                pid,
            ),
        k1.current == k0.current,
        k1.others@ == k0.others@.remove(at),
    ensures
        wait_status(k1, pid) == -1,
{
    if has_child(k1, pid) {
        let i = choose|i: int|
            0 <= i < k1.others@.len() && child_matches(#[trigger] k1.others@[i], k1.current.pid, pid);
        let i0 = if i < at { i } else { i + 1 };
        assert(k1.others@[i] == k0.others@[i0]);
    }
}


/// A map request is refused when `port` names no right among its low
/// three bits, or has a bit above them: 0 and 8 are both refused.
pub proof fn lemma_mmap_refuses_bad_ports(k: Kernel, start: usize, len: usize, port: usize)
    requires
        port == 0 || port >= 8,
    ensures
        !mmap_admissible(k, start, len, port),
{
    assert(port == 0 ==> port & 0x7 == 0) by (bit_vector);
    assert(port >= 8 ==> port & !0x7usize != 0) by (bit_vector);
}

/// The rights that ports 1 to 7 ask for: bit 0 read, bit 1 write, bit 2
/// execute.
pub proof fn lemma_port_rights(port: usize)
    requires
        1 <= port <= 7,
    ensures
        port & !0x7usize == 0,
        port & 0x7 != 0,
        port_perm(port).r == (port == 1 || port == 3 || port == 5 || port == 7),
        port_perm(port).w == (port == 2 || port == 3 || port == 6 || port == 7),
        port_perm(port).x == (port >= 4),
        port_perm(port).u,
{
    assert(1 <= port <= 7 ==> port & !0x7usize == 0 && port & 0x7 != 0) by (bit_vector);
    assert(1 <= port <= 7 ==> ((port & 1 != 0) == (port == 1 || port == 3 || port == 5 || port
        == 7))) by (bit_vector);
    assert(1 <= port <= 7 ==> ((port & 2 != 0) == (port == 2 || port == 3 || port == 6 || port
        == 7))) by (bit_vector);
    assert(1 <= port <= 7 ==> ((port & 4 != 0) == (port >= 4))) by (bit_vector);
}


/// In an address space built for an image the page just below the user
/// stack is unmapped, and the stack's pages are mapped for user reads and
/// writes.
pub proof fn lemma_stack_has_a_guard_page(ms: MemorySet, img: LoadedImage)
    requires
        ms.wf(),
        image_well_placed(img),
        is_image_space(ms, img),
    ensures
        ms.translate_spec(guard_page(img)) is None,
        forall|vpn: usize|
            guard_page(img) < vpn < vpn_floor(img.user_stack_top) ==> (
            #[trigger] ms.translate_spec(vpn) matches Some(e) && e.valid && e.perm.u && e.perm.r
                && e.perm.w),
{
    let g = guard_page(img);
    let n = img.segments@.len() as int;
    let plan = plan_of(img);
    assert(ms.areas@[n + 1].start_vpn == plan[n].start_vpn);
    assert(ms.areas@[(n + 1) + 1].start_vpn == plan[n + 1].start_vpn);
    if ms.mapped(g) {
        let a = choose|a: int| 0 <= a < ms.areas@.len() && (#[trigger] ms.areas@[a]).covers(g);
        if 0 < a {
            assert(ms.areas@[(a - 1) + 1].start_vpn == plan[a - 1].start_vpn);
            if a - 1 < n {
                assert(img.segments@[a - 1].start_va <= img.segments@[a - 1].end_va);
            }
        }
    }
    assert forall|vpn: usize| g < vpn < vpn_floor(img.user_stack_top) implies (
    #[trigger] ms.translate_spec(vpn) matches Some(e) && e.valid && e.perm.u && e.perm.r
        && e.perm.w) by {
        ms.lemma_translate(n + 1, vpn);
    }
}

} // verus!
