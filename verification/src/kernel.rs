//! The kernel state: frame allocator, the task on the processor, every
//! other task in queue order, and the FIFO dispatch rule.

use vstd::prelude::*;
use crate::config::{MAX_SYSCALL_NUM, PAGE_SIZE};
use crate::frame::FrameAllocator;
use crate::mm::{vpn_floor, MemorySet};
use crate::task::{zero_counts, TaskControlBlock, TaskStatus, TrapContext, DEFAULT_PRIORITY};

verus! {

/// Index of the first ready task at or after `from`, or `others.len()`
/// if none is ready.
pub open spec fn first_ready(others: Seq<TaskControlBlock>, from: int) -> int
    decreases others.len() - from,
{
    if from < 0 || from >= others.len() {
        others.len() as int
    } else if others[from].status == TaskStatus::Ready {
        from
    } else {
        first_ready(others, from + 1)
    }
}

/// Everything the system calls act on.
///
/// `current` is the task in the processor's slot. `others` holds every
/// other live or zombie task; the ready ones among them run in the order
/// in which they stand there.
pub struct Kernel {
    pub frames: FrameAllocator,
    /// Physical memory: one page of bytes per managed frame, the page of
    /// frame `ppn` at index `ppn - frames.start`.
    pub memory: Vec<Vec<u8>>,
    pub current: TaskControlBlock,
    pub others: Vec<TaskControlBlock>,
    pub next_pid: usize,
}

/// Whether every byte of `page` is zero.
pub open spec fn all_zero(page: Seq<u8>) -> bool {
    forall|j: int| 0 <= j < page.len() ==> page[j] == 0
}

/// A page of zero bytes.
pub fn zero_page() -> (v: Vec<u8>)
    ensures
        v@.len() == PAGE_SIZE,
        all_zero(v@),
{
    let mut v: Vec<u8> = Vec::new();
    while v.len() < PAGE_SIZE
        invariant
            v@.len() <= PAGE_SIZE,
            forall|i: int| 0 <= i < v@.len() ==> v@[i] == 0,
        decreases PAGE_SIZE - v@.len(),
    {
        v.push(0u8);
    }
    v
}

/// A copy of a page.
pub fn clone_page(src: &Vec<u8>) -> (v: Vec<u8>)
    ensures
        v@ == src@,
{
    let mut v: Vec<u8> = Vec::new();
    while v.len() < src.len()
        invariant
            v@.len() <= src@.len(),
            forall|i: int| 0 <= i < v@.len() ==> v@[i] == src@[i],
        decreases src@.len() - v@.len(),
    {
        v.push(src[v.len()]);
    }
    assert(v@ =~= src@);
    v
}

/// Copies the contents of every frame of `src` into the frame that backs
/// the same page of `dst`. `memory[i]` is the page of frame `start + i`.
pub fn copy_pages(memory: &mut Vec<Vec<u8>>, start: usize, src: &MemorySet, dst: &MemorySet)
    requires
        src.wf(),
        dst.wf(),
        src.areas@.len() == dst.areas@.len(),
        forall|a: int|
            0 <= a < src.areas@.len() ==> (#[trigger] src.areas@[a]).frames@.len()
                == dst.areas@[a].frames@.len(),
        forall|q: usize|
            #[trigger] src.owns(q) ==> !dst.owns(q) && start <= q < start + old(memory)@.len(),
        forall|q: usize| #[trigger] dst.owns(q) ==> start <= q < start + old(memory)@.len(),
        forall|i: int| 0 <= i < old(memory)@.len() ==> (#[trigger] old(memory)@[i])@.len() == PAGE_SIZE,
    ensures
        final(memory)@.len() == old(memory)@.len(),
        forall|i: int|
            0 <= i < final(memory)@.len() ==> (#[trigger] final(memory)@[i])@.len() == PAGE_SIZE,
        forall|a: int, p: int|
            0 <= a < dst.areas@.len() && 0 <= p < dst.areas@[a].frames@.len() ==> (
            #[trigger] final(memory)@[dst.areas@[a].frames@[p] - start])@ == old(memory)@[src.areas@[a].frames@[p] - start]@,
        forall|i: int|
            0 <= i < old(memory)@.len() && !dst.owns((start + i) as usize) ==> final(memory)@[i]
                == old(memory)@[i],
{
    let mut a: usize = 0;
    while a < dst.areas.len()
        invariant
            a <= dst.areas@.len(),
            src.wf(),
            dst.wf(),
            src.areas@.len() == dst.areas@.len(),
            forall|x: int|
                0 <= x < src.areas@.len() ==> (#[trigger] src.areas@[x]).frames@.len()
                    == dst.areas@[x].frames@.len(),
            forall|q: usize|
                #[trigger] src.owns(q) ==> !dst.owns(q) && start <= q < start + old(memory)@.len(),
            forall|q: usize| #[trigger] dst.owns(q) ==> start <= q < start + old(memory)@.len(),
            memory@.len() == old(memory)@.len(),
            forall|i: int| 0 <= i < memory@.len() ==> (#[trigger] memory@[i])@.len() == PAGE_SIZE,
            forall|x: int, p: int|
                0 <= x < a && 0 <= p < dst.areas@[x].frames@.len() ==> (
                #[trigger] memory@[dst.areas@[x].frames@[p] - start])@ == old(memory)@[src.areas@[x].frames@[p] - start]@,
            forall|i: int|
                0 <= i < old(memory)@.len() && !dst.owns((start + i) as usize) ==> memory@[i]
                    == old(memory)@[i],
        decreases dst.areas@.len() - a,
    {
        let mut p: usize = 0;
        while p < dst.areas[a].frames.len()
            invariant
                a < dst.areas@.len(),
                p <= dst.areas@[a as int].frames@.len(),
                src.wf(),
                dst.wf(),
                src.areas@.len() == dst.areas@.len(),
                src.areas@[a as int].frames@.len() == dst.areas@[a as int].frames@.len(),
                forall|q: usize|
                    #[trigger] src.owns(q) ==> !dst.owns(q) && start <= q < start + old(memory)@.len(),
                forall|q: usize| #[trigger] dst.owns(q) ==> start <= q < start + old(memory)@.len(),
                memory@.len() == old(memory)@.len(),
            forall|i: int| 0 <= i < memory@.len() ==> (#[trigger] memory@[i])@.len() == PAGE_SIZE,
                forall|x: int, y: int|
                    0 <= x < a && 0 <= y < dst.areas@[x].frames@.len() ==> (
                    #[trigger] memory@[dst.areas@[x].frames@[y] - start])@ == old(memory)@[src.areas@[x].frames@[y] - start]@,
                forall|y: int|
                    0 <= y < p ==> (#[trigger] memory@[dst.areas@[a as int].frames@[y] - start])@
                        == old(memory)@[src.areas@[a as int].frames@[y] - start]@,
                forall|i: int|
                    0 <= i < old(memory)@.len() && !dst.owns((start + i) as usize) ==> memory@[i]
                        == old(memory)@[i],
            decreases dst.areas@[a as int].frames@.len() - p,
        {
            let from = src.areas[a].frames[p];
            let to = dst.areas[a].frames[p];
            let ghost prev = memory@;
            proof {
                assert(src.owns(src.areas@[a as int].frames@[p as int]));
                assert(dst.owns(dst.areas@[a as int].frames@[p as int]));
            }
            let page = clone_page(&memory[from - start]);
            memory[to - start] = page;
            proof {
                assert(prev[from - start] == old(memory)@[from - start]);
                assert forall|x: int, y: int|
                    0 <= x < a && 0 <= y < dst.areas@[x].frames@.len() implies (
                #[trigger] memory@[dst.areas@[x].frames@[y] - start])@ == old(memory)@[src.areas@[x].frames@[y] - start]@ by {
                    assert(dst.areas@[x].frames@[y] != dst.areas@[a as int].frames@[p as int]);
                    assert(dst.owns(dst.areas@[x].frames@[y]));
                    assert(memory@[dst.areas@[x].frames@[y] - start] == prev[dst.areas@[x].frames@[y]
                        - start]);
                }
                assert forall|y: int| 0 <= y < p + 1 implies (
                #[trigger] memory@[dst.areas@[a as int].frames@[y] - start])@ == old(memory)@[src.areas@[a as int].frames@[y] - start]@ by {
                    if y < p {
                        assert(dst.areas@[a as int].frames@[y] != dst.areas@[a as int].frames@[p as int]);
                        assert(dst.owns(dst.areas@[a as int].frames@[y]));
                        assert(memory@[dst.areas@[a as int].frames@[y] - start]
                            == prev[dst.areas@[a as int].frames@[y] - start]);
                    }
                }
            }
            p = p + 1;
        }
        a = a + 1;
    }
}

/// Whether frame `q` is one of `v[from..]`.
pub open spec fn listed(v: Seq<usize>, from: int, q: usize) -> bool {
    exists|i: int| from <= i < v.len() && #[trigger] v[i] == q
}

/// Fills the frames `v[from..]` with zero bytes. `memory[i]` is the page
/// of frame `start + i`.
pub fn zero_frames(memory: &mut Vec<Vec<u8>>, start: usize, v: &Vec<usize>, from: usize)
    requires
        from <= v@.len(),
        forall|i: int|
            from <= i < v@.len() ==> start <= #[trigger] v@[i] < start + old(memory)@.len(),
        forall|i: int| 0 <= i < old(memory)@.len() ==> (#[trigger] old(memory)@[i])@.len() == PAGE_SIZE,
    ensures
        final(memory)@.len() == old(memory)@.len(),
        forall|i: int|
            0 <= i < final(memory)@.len() ==> (#[trigger] final(memory)@[i])@.len() == PAGE_SIZE,
        forall|q: usize|
            start <= q < start + old(memory)@.len() ==> if #[trigger] listed(v@, from as int, q) {
                all_zero(final(memory)@[q - start]@)
            } else {
                final(memory)@[q - start] == old(memory)@[q - start]
            },
{
    let mut k: usize = from;
    while k < v.len()
        invariant
            from <= k <= v@.len(),
            forall|i: int|
                from <= i < v@.len() ==> start <= #[trigger] v@[i] < start + old(memory)@.len(),
            memory@.len() == old(memory)@.len(),
            forall|i: int| 0 <= i < memory@.len() ==> (#[trigger] memory@[i])@.len() == PAGE_SIZE,
            forall|q: usize|
                start <= q < start + old(memory)@.len() ==> if #[trigger] listed(
                    v@.subrange(0, k as int),
                    from as int,
                    q,
                ) {
                    all_zero(memory@[q - start]@)
                } else {
                    memory@[q - start] == old(memory)@[q - start]
                },
        decreases v@.len() - k,
    {
        let at = v[k] - start;
        let ghost prev = memory@;
        memory[at] = zero_page();
        proof {
            let s0 = v@.subrange(0, k as int);
            let s1 = v@.subrange(0, k + 1);
            assert forall|q: usize| start <= q < start + old(memory)@.len() implies if #[trigger] listed(
                s1,
                from as int,
                q,
            ) {
                all_zero(memory@[q - start]@)
            } else {
                memory@[q - start] == old(memory)@[q - start]
            } by {
                if listed(s0, from as int, q) {
                    let i = choose|i: int| from <= i < s0.len() && #[trigger] s0[i] == q;
                    assert(s1[i] == q);
                }
                if q == v@[k as int] {
                    assert(s1[k as int] == q);
                } else {
                    assert(memory@[q - start] == prev[q - start]);
                    if listed(s1, from as int, q) {
                        let i = choose|i: int| from <= i < s1.len() && #[trigger] s1[i] == q;
                        assert(s0[i] == q);
                    }
                }
            }
        }
        k = k + 1;
    }
    proof {
        assert(v@.subrange(0, v@.len() as int) =~= v@);
    }
}

/// Fills every frame of the address space `ms` with zero bytes.
pub fn zero_space(memory: &mut Vec<Vec<u8>>, start: usize, ms: &MemorySet)
    requires
        forall|q: usize| #[trigger] ms.owns(q) ==> start <= q < start + old(memory)@.len(),
        forall|i: int| 0 <= i < old(memory)@.len() ==> (#[trigger] old(memory)@[i])@.len() == PAGE_SIZE,
    ensures
        final(memory)@.len() == old(memory)@.len(),
        forall|i: int|
            0 <= i < final(memory)@.len() ==> (#[trigger] final(memory)@[i])@.len() == PAGE_SIZE,
        forall|q: usize|
            start <= q < start + old(memory)@.len() ==> if #[trigger] ms.owns(q) {
                all_zero(final(memory)@[q - start]@)
            } else {
                final(memory)@[q - start] == old(memory)@[q - start]
            },
{
    let mut a: usize = 0;
    while a < ms.areas.len()
        invariant
            a <= ms.areas@.len(),
            forall|q: usize| #[trigger] ms.owns(q) ==> start <= q < start + old(memory)@.len(),
            memory@.len() == old(memory)@.len(),
            forall|i: int| 0 <= i < memory@.len() ==> (#[trigger] memory@[i])@.len() == PAGE_SIZE,
            forall|q: usize|
                start <= q < start + old(memory)@.len() ==> if #[trigger] ms.owns_upto(a as int, q) {
                    all_zero(memory@[q - start]@)
                } else {
                    memory@[q - start] == old(memory)@[q - start]
                },
        decreases ms.areas@.len() - a,
    {
        let ghost prev = memory@;
        let v = &ms.areas[a].frames;
        proof {
            assert forall|i: int| 0 <= i < v@.len() implies start <= #[trigger] v@[i] < start
                + memory@.len() by {
                assert(ms.owns(ms.areas@[a as int].frames@[i]));
            }
        }
        zero_frames(memory, start, v, 0);
        proof {
            assert forall|q: usize| start <= q < start + old(memory)@.len() implies if #[trigger] ms.owns_upto(
                a + 1,
                q,
            ) {
                all_zero(memory@[q - start]@)
            } else {
                memory@[q - start] == old(memory)@[q - start]
            } by {
                if listed(v@, 0, q) {
                    let i = choose|i: int| 0 <= i < v@.len() && #[trigger] v@[i] == q;
                    assert(ms.areas@[a as int].frames@[i] == q);
                    assert(ms.owns_upto(a + 1, q));
                } else {
                    assert(memory@[q - start] == prev[q - start]);
                    if ms.owns_upto(a as int, q) {
                        let (i, p) = choose|i: int, p: int|
                            0 <= i < a && i < ms.areas@.len() && 0 <= p
                                < ms.areas@[i].frames@.len() && #[trigger] ms.areas@[i].frames@[p]
                                == q;
                        assert(ms.owns_upto(a + 1, q));
                    }
                    if ms.owns_upto(a + 1, q) && !ms.owns_upto(a as int, q) {
                        let (i, p) = choose|i: int, p: int|
                            0 <= i < a + 1 && i < ms.areas@.len() && 0 <= p
                                < ms.areas@[i].frames@.len() && #[trigger] ms.areas@[i].frames@[p]
                                == q;
                        assert(i == a);
                        assert(v@[p] == q);
                    }
                }
            }
        }
        a = a + 1;
    }
    proof {
        assert forall|q: usize| ms.owns(q) == ms.owns_upto(ms.areas@.len() as int, q) by {
            if ms.owns(q) {
                let (i, p) = choose|i: int, p: int|
                    0 <= i < ms.areas@.len() && 0 <= p < ms.areas@[i].frames@.len()
                        && #[trigger] ms.areas@[i].frames@[p] == q;
                assert(ms.owns_upto(ms.areas@.len() as int, q));
            }
        }
    }
}

/// The byte that address `va` names in the address space `ms`, if its
/// page is mapped. `memory[i]` is the page of frame `start + i`.
pub open spec fn byte_of(memory: Seq<Vec<u8>>, start: int, ms: MemorySet, va: usize) -> Option<u8> {
    match ms.translate_spec(vpn_floor(va)) {
        Some(e) => Some(memory[e.ppn - start]@[(va % PAGE_SIZE) as int]),
        None => None,
    }
}

/// Stores `data` at the addresses `va, va + 1, ..` of the address space
/// `ms`. `memory[i]` is the page of frame `start + i`.
pub fn store_bytes(
    memory: &mut Vec<Vec<u8>>,
    start: usize,
    ms: &MemorySet,
    va: usize,
    data: &Vec<u8>,
)
    requires
        ms.wf(),
        va + data@.len() <= usize::MAX,
        forall|q: usize| #[trigger] ms.owns(q) ==> start <= q < start + old(memory)@.len(),
        forall|i: int| 0 <= i < old(memory)@.len() ==> (#[trigger] old(memory)@[i])@.len() == PAGE_SIZE,
        forall|a: usize| va <= a < va + data@.len() ==> ms.mapped(#[trigger] vpn_floor(a)),
    ensures
        final(memory)@.len() == old(memory)@.len(),
        forall|i: int|
            0 <= i < final(memory)@.len() ==> (#[trigger] final(memory)@[i])@.len() == PAGE_SIZE,
        forall|a: usize|
            #[trigger] byte_of(final(memory)@, start as int, *ms, a) == if va <= a < va
                + data@.len() {
                Some(data@[a - va])
            } else {
                byte_of(old(memory)@, start as int, *ms, a)
            },
        forall|q: usize|
            start <= q < start + old(memory)@.len() && !#[trigger] ms.owns(q) ==> final(memory)@[q - start] == old(memory)@[q - start],
{
    let mut i: usize = 0;
    while i < data.len()
        invariant
            i <= data@.len(),
            ms.wf(),
            va + data@.len() <= usize::MAX,
            forall|q: usize| #[trigger] ms.owns(q) ==> start <= q < start + old(memory)@.len(),
            forall|a: usize| va <= a < va + data@.len() ==> ms.mapped(#[trigger] vpn_floor(a)),
            memory@.len() == old(memory)@.len(),
            forall|j: int| 0 <= j < memory@.len() ==> (#[trigger] memory@[j])@.len() == PAGE_SIZE,
            forall|a: usize|
                #[trigger] byte_of(memory@, start as int, *ms, a) == if va <= a < va + i {
                    Some(data@[a - va])
                } else {
                    byte_of(old(memory)@, start as int, *ms, a)
                },
            forall|q: usize|
                start <= q < start + old(memory)@.len() && !#[trigger] ms.owns(q) ==> memory@[q
                    - start] == old(memory)@[q - start],
        decreases data@.len() - i,
    {
        let w = va + i;
        let ghost prev = memory@;
        proof {
            assert(ms.mapped(vpn_floor(w)));
            ms.lemma_translate_owned(vpn_floor(w));
        }
        let e = ms.translate(w / PAGE_SIZE).unwrap();
        memory[e.ppn - start][w % PAGE_SIZE] = data[i];
        proof {
            assert forall|a: usize|
                #[trigger] byte_of(memory@, start as int, *ms, a) == if va <= a < va + i + 1 {
                    Some(data@[a - va])
                } else {
                    byte_of(old(memory)@, start as int, *ms, a)
                } by {
                assert(byte_of(prev, start as int, *ms, a) == if va <= a < va + i {
                    Some(data@[a - va])
                } else {
                    byte_of(old(memory)@, start as int, *ms, a)
                });
                if a != w && ms.translate_spec(vpn_floor(a)) is Some {
                    ms.lemma_translate_owned(vpn_floor(a));
                    if vpn_floor(a) != vpn_floor(w) {
                        ms.lemma_distinct_pages(vpn_floor(w), vpn_floor(a));
                    }
                }
            }
        }
        i = i + 1;
    }
}

impl Kernel {
    /// Whether frame `q` backs a page of some task of `others`.
    pub open spec fn owned_by_other(&self, q: usize) -> bool {
        exists|i: int| 0 <= i < self.others@.len() && #[trigger] self.others@[i].memory_set.owns(q)
    }

    /// Every task is well formed, the frames handed out are exactly the
    /// frames that tasks own, no frame and no pid belongs to two tasks,
    /// and only `current` can be running.
    pub open spec fn wf(&self) -> bool {
        &&& self.frames.wf()
        &&& self.memory@.len() == self.frames.end_spec() - self.frames.start_spec()
        &&& forall|i: int|
            0 <= i < self.memory@.len() ==> (#[trigger] self.memory@[i])@.len() == PAGE_SIZE
        &&& forall|q: usize|
            #[trigger] self.frames.is_allocated(q) ==> self.current.memory_set.owns(q)
                || self.owned_by_other(q)
        &&& self.current.wf()
        &&& self.current.memory_set.backed_by(self.frames)
        &&& self.current.pid < self.next_pid
        &&& self.next_pid <= isize::MAX
        &&& (self.current.status == TaskStatus::Running ==> self.current.init_time is Some)
        &&& forall|i: int|
            0 <= i < self.others@.len() ==> {
                &&& (#[trigger] self.others@[i]).wf()
                &&& self.others@[i].memory_set.backed_by(self.frames)
                &&& self.others@[i].pid < self.next_pid
                &&& self.others@[i].pid != self.current.pid
                &&& self.others@[i].status != TaskStatus::Running
            }
        &&& forall|i: int, q: usize|
            0 <= i < self.others@.len() ==> !(#[trigger] self.others@[i].memory_set.owns(q)
                && self.current.memory_set.owns(q))
        &&& forall|i: int, j: int, q: usize|
            0 <= i < j < self.others@.len() ==> !(#[trigger] self.others@[i].memory_set.owns(q)
                && #[trigger] self.others@[j].memory_set.owns(q))
        &&& forall|i: int, j: int|
            0 <= i < j < self.others@.len() ==> (#[trigger] self.others@[i]).pid != (
            #[trigger] self.others@[j]).pid
    }

    /// The byte that address `va` names in the address space `ms`, if its
    /// page is mapped.
    pub open spec fn byte_at(&self, ms: MemorySet, va: usize) -> Option<u8> {
        byte_of(self.memory@, self.frames.start_spec(), ms, va)
    }

    /// A kernel that manages the frames `[frame_start, frame_end)` and runs
    /// one root task, pid 0, with an empty address space whose heap starts
    /// at `heap_bottom`.
    pub fn new(frame_start: usize, frame_end: usize, heap_bottom: usize, now_ms: usize) -> (r: Self)
        requires
            frame_start <= frame_end,
            heap_bottom % PAGE_SIZE == 0,
        ensures
            r.wf(),
            r.others@.len() == 0,
            r.next_pid == 1,
            r.current.pid == 0,
            r.current.status == TaskStatus::Running,
            r.current.parent is None,
            r.current.init_time == Some(now_ms),
            r.current.priority == DEFAULT_PRIORITY,
            r.current.memory_set.heap_bottom == heap_bottom,
            r.current.memory_set.program_brk == heap_bottom,
            forall|vpn: usize| r.current.memory_set.translate_spec(vpn) is None,
            forall|i: int| 0 <= i < MAX_SYSCALL_NUM ==> r.current.syscall_times@[i] == 0,
            r.frames.free_count() == frame_end - frame_start,
            r.frames.start_spec() == frame_start,
            r.frames.end_spec() == frame_end,
            forall|i: int| 0 <= i < frame_end - frame_start ==> all_zero((#[trigger] r.memory@[i])@),
    {
        let frames = FrameAllocator::new(frame_start, frame_end);
        let mut memory: Vec<Vec<u8>> = Vec::new();
        let mut p: usize = frame_start;
        while p < frame_end
            invariant
                frame_start <= p <= frame_end,
                memory@.len() == p - frame_start,
                forall|i: int| 0 <= i < memory@.len() ==> (#[trigger] memory@[i])@.len() == PAGE_SIZE,
                forall|i: int| 0 <= i < memory@.len() ==> all_zero((#[trigger] memory@[i])@),
            decreases frame_end - p,
        {
            memory.push(zero_page());
            p = p + 1;
        }
        let current = TaskControlBlock {
            pid: 0,
            status: TaskStatus::Running,
            memory_set: MemorySet::new(heap_bottom),
            trap_cx: TrapContext { a0: 0, sepc: 0, sp: heap_bottom },
            parent: None,
            exit_code: 0,
            syscall_times: zero_counts(),
            init_time: Some(now_ms),
            priority: DEFAULT_PRIORITY,
        };
        Kernel { frames, memory, current, others: Vec::new(), next_pid: 1 }
    }

    /// Puts the first ready task of `others` on the processor and moves the
    /// task that held it to the back of `others`. With no ready task in
    /// `others`, a ready `current` runs on, and a zombie `current` stays
    /// where it is: the processor idles. Reports whether a task runs.
    pub fn dispatch_next(&mut self, now_ms: usize) -> (r: bool)
        requires
            old(self).wf(),
            old(self).current.status != TaskStatus::Running,
        ensures
            final(self).wf(),
            final(self).frames == old(self).frames,
            final(self).memory == old(self).memory,
            final(self).next_pid == old(self).next_pid,
            r == (final(self).current.status == TaskStatus::Running),
            r == (first_ready(old(self).others@, 0) < old(self).others@.len() || old(
                self).current.status == TaskStatus::Ready),
            first_ready(old(self).others@, 0) < old(self).others@.len() ==> {
                let k = first_ready(old(self).others@, 0);
                &&& final(self).current == old(self).others@[k].dispatched(now_ms)
                &&& final(self).others@ == old(self).others@.remove(k).push(old(self).current)
            },
            first_ready(old(self).others@, 0) >= old(self).others@.len() ==> {
                &&& final(self).others == old(self).others
                &&& final(self).current == if old(self).current.status == TaskStatus::Ready {
                    old(self).current.dispatched(now_ms)
                } else {
                    old(self).current
                }
            },
    {
        let mut k: usize = 0;
        while k < self.others.len() && !matches!(self.others[k].status, TaskStatus::Ready)
            invariant
                k <= self.others@.len(),
                *self == *old(self),
                first_ready(self.others@, 0) == first_ready(self.others@, k as int),
            decreases self.others@.len() - k,
        {
            k = k + 1;
        }
        if k < self.others.len() {
            let mut next = self.others.remove(k);
            next.status = TaskStatus::Running;
            if next.init_time.is_none() {
                next.init_time = Some(now_ms);
            }
            core::mem::swap(&mut self.current, &mut next);
            self.others.push(next);
            proof {
                let before = old(self).others@;
                let now = self.others@;
                let n = before.len() as int;
                assert(now.len() == n);
                assert forall|i: int| 0 <= i < n - 1 implies now[i] == before[if i < k {
                    i
                } else {
                    i + 1
                }] by {}
                assert(now[n - 1] == old(self).current);
                assert(self.current.memory_set == before[k as int].memory_set);
                assert(self.current.pid == before[k as int].pid);
                assert forall|i: int| 0 <= i < now.len() implies {
                    &&& (#[trigger] now[i]).wf()
                    &&& now[i].memory_set.backed_by(self.frames)
                    &&& now[i].pid < self.next_pid
                    &&& now[i].pid != self.current.pid
                    &&& now[i].status != TaskStatus::Running
                } by {
                    if i < n - 1 {
                        let i0 = if i < k { i } else { i + 1 };
                        assert(now[i] == before[i0]);
                        assert(before[i0].pid != before[k as int].pid);
                    }
                }
                assert forall|i: int, q: usize| 0 <= i < now.len() implies !(
                #[trigger] now[i].memory_set.owns(q) && self.current.memory_set.owns(q)) by {
                    if i < n - 1 {
                        let i0 = if i < k { i } else { i + 1 };
                        assert(now[i] == before[i0]);
                        assert(!(before[i0].memory_set.owns(q) && before[k as int].memory_set.owns(
                            q,
                        )));
                    } else {
                        assert(!(before[k as int].memory_set.owns(q)
                            && old(self).current.memory_set.owns(q)));
                    }
                }
                assert forall|i: int, j: int, q: usize| 0 <= i < j < now.len() implies !(
                #[trigger] now[i].memory_set.owns(q) && #[trigger] now[j].memory_set.owns(q)) by {
                    let i0 = if i < k { i } else { i + 1 };
                    assert(now[i] == before[i0]);
                    if j < n - 1 {
                        let j0 = if j < k { j } else { j + 1 };
                        assert(now[j] == before[j0]);
                        assert(!(before[i0].memory_set.owns(q) && before[j0].memory_set.owns(q)));
                    } else {
                        assert(!(before[i0].memory_set.owns(q)
                            && old(self).current.memory_set.owns(q)));
                    }
                }
                assert forall|q: usize| #[trigger] self.frames.is_allocated(q) implies (
                self.current.memory_set.owns(q) || self.owned_by_other(q)) by {
                    if old(self).current.memory_set.owns(q) {
                        assert(now[n - 1].memory_set.owns(q));
                    } else {
                        assert(old(self).owned_by_other(q));
                        let i = choose|i: int|
                            0 <= i < before.len() && #[trigger] before[i].memory_set.owns(q);
                        if i != k {
                            let i1 = if i < k { i } else { i - 1 };
                            assert(now[i1] == before[i]);
                            assert(now[i1].memory_set.owns(q));
                        }
                    }
                }
                assert forall|i: int, j: int| 0 <= i < j < now.len() implies (#[trigger] now[i]).pid
                    != (#[trigger] now[j]).pid by {
                    let i0 = if i < k { i } else { i + 1 };
                    assert(now[i] == before[i0]);
                    if j < n - 1 {
                        let j0 = if j < k { j } else { j + 1 };
                        assert(now[j] == before[j0]);
                    }
                }
            }
            true
        } else if matches!(self.current.status, TaskStatus::Ready) {
            self.current.status = TaskStatus::Running;
            if self.current.init_time.is_none() {
                self.current.init_time = Some(now_ms);
            }
            true
        } else {
            false
        }
    }
}

} // verus!
