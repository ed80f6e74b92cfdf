//! Process management system calls.
//!
//! Each call acts on the kernel state and on the task in the processor's
//! slot. Values that a call hands to user memory are returned beside the
//! status word; clock readings come in as arguments.

use vstd::prelude::*;
use crate::config::{MAX_SYSCALL_NUM, PAGE_SIZE};
use crate::image::{
    check_plan, from_plan, image_plan, image_well_placed, in_segment_data, load_segments,
    plan_admissible, plan_of, total_pages, LoadedImage,
};
use crate::kernel::{
    all_zero, byte_of, copy_pages, first_ready, listed, store_bytes, zero_frames, zero_space,
    Kernel,
};
use crate::layout::{
    encode_exit_code, encode_task_info, encode_time_val, exit_code_bytes, task_info_bytes,
    time_val_bytes,
};
use crate::mm::{ceil_vpn, find_area, floor_vpn, page_aligned, vpn_ceil, vpn_floor, MapPermission};
use crate::task::{copy_counts, zero_counts, TaskControlBlock, TaskStatus, TrapContext, DEFAULT_PRIORITY};

verus! {

/// A clock reading split into seconds and microseconds.
#[derive(Debug)]
pub struct TimeVal {
    pub sec: usize,
    pub usec: usize,
}

/// Task information
pub struct TaskInfo {
    /// Task status in its life cycle
    pub status: TaskStatus,
    /// The numbers of syscall called by task
    pub syscall_times: Vec<u32>,
    /// Total running time of task
    pub time: usize,
}

/// Bytes that a `TimeVal` takes in user memory.
pub const TIME_VAL_BYTES: usize = 16;

/// Bytes that a `TaskInfo` takes in user memory.
pub const TASK_INFO_BYTES: usize = 2016;

/// Whether the task on the processor may be written at every byte of
/// `[va, va + len)`.
pub open spec fn user_writable(k: Kernel, va: usize, len: usize) -> bool {
    &&& va + len <= usize::MAX
    &&& forall|vpn: usize|
        vpn_floor(va) <= vpn < vpn_ceil((va + len) as usize) ==> (
        #[trigger] k.current.memory_set.translate_spec(vpn) matches Some(e) && e.valid && e.perm.u
            && e.perm.w)
}

/// Decides `user_writable`.
pub fn check_user_writable(k: &Kernel, va: usize, len: usize) -> (r: bool)
    requires
        k.wf(),
    ensures
        r == user_writable(*k, va, len),
{
    if len > usize::MAX - va {
        return false;
    }
    k.current.memory_set.range_writable(floor_vpn(va), ceil_vpn(va + len))
}

/// Counts one invocation of system call `id` for the task on the
/// processor. A count stops at `u32::MAX`; a number outside the table is
/// not counted.
pub fn record_syscall(k: &mut Kernel, id: usize)
    requires
        old(k).wf(),
    ensures
        final(k).wf(),
        id >= MAX_SYSCALL_NUM ==> *final(k) == *old(k),
        id < MAX_SYSCALL_NUM ==> *final(k) == (Kernel {
            current: TaskControlBlock {
                syscall_times: final(k).current.syscall_times,
                ..old(k).current
            },
            ..*old(k)
        }) && final(k).current.syscall_times@ == old(k).current.syscall_times@.update(
            id as int,
            if old(k).current.syscall_times@[id as int] < u32::MAX {
                (old(k).current.syscall_times@[id as int] + 1) as u32
            } else {
                u32::MAX
            },
        ),
{
    if id < MAX_SYSCALL_NUM {
        let c = k.current.syscall_times[id];
        if c < u32::MAX {
            k.current.syscall_times.set(id, c + 1);
        }
        proof {
            assert(k.current.syscall_times@ =~= old(k).current.syscall_times@.update(
                id as int,
                if c < u32::MAX {
                    (c + 1) as u32
                } else {
                    u32::MAX
                },
            ));
        }
    }
}

/// Ends the task on the processor with `exit_code` and dispatches the
/// next ready task. The ended task stays a zombie, its frames untouched,
/// until its parent reaps it. Reports whether a task runs afterwards.
pub fn sys_exit(k: &mut Kernel, exit_code: i32, now_ms: usize) -> (r: bool)
    requires
        old(k).wf(),
    ensures
        final(k).wf(),
        final(k).frames == old(k).frames,
        final(k).memory == old(k).memory,
        final(k).next_pid == old(k).next_pid,
        r == (first_ready(old(k).others@, 0) < old(k).others@.len()),
        first_ready(old(k).others@, 0) < old(k).others@.len() ==> {
            let n = first_ready(old(k).others@, 0);
            &&& final(k).current == old(k).others@[n].dispatched(now_ms)
            &&& final(k).others@ == old(k).others@.remove(n).push(
                TaskControlBlock {
                    status: TaskStatus::Zombie,
                    exit_code: exit_code,
                    ..old(k).current
                },
            )
        },
        !r ==> final(k).others == old(k).others && final(k).current == (
        TaskControlBlock {
            status: TaskStatus::Zombie,
            exit_code: exit_code,
            ..old(k).current
        }),
{
    k.current.status = TaskStatus::Zombie;
    k.current.exit_code = exit_code;
    k.dispatch_next(now_ms)
}

/// Gives up the processor: the task on it goes to the back of the ready
/// order and the first ready task runs. Always returns 0.
pub fn sys_yield(k: &mut Kernel, now_ms: usize) -> (r: isize)
    requires
        old(k).wf(),
        old(k).current.status == TaskStatus::Running,
    ensures
        final(k).wf(),
        r == 0,
        final(k).frames == old(k).frames,
        final(k).memory == old(k).memory,
        final(k).next_pid == old(k).next_pid,
        final(k).current.status == TaskStatus::Running,
        first_ready(old(k).others@, 0) < old(k).others@.len() ==> {
            let n = first_ready(old(k).others@, 0);
            &&& final(k).current == old(k).others@[n].dispatched(now_ms)
            &&& final(k).others@ == old(k).others@.remove(n).push(
                TaskControlBlock { status: TaskStatus::Ready, ..old(k).current },
            )
        },
        first_ready(old(k).others@, 0) >= old(k).others@.len() ==> *final(k) == *old(k),
{
    k.current.status = TaskStatus::Ready;
    let _ = k.dispatch_next(now_ms);
    0
}

/// Pid of the task on the processor.
pub fn sys_getpid(k: &Kernel) -> (r: isize)
    requires
        k.wf(),
    ensures
        r == k.current.pid,
{
    k.current.pid as isize
}

/// What storing `data` at the addresses from `va` on does to physical
/// memory, seen through the address space `ms`: the bytes of `data` stand
/// at `va, va + 1, ..`, every other address of `ms` names the byte it
/// named before, and no frame outside `ms` changes. `pre[i]` and
/// `post[i]` are the page of frame `start + i`.
pub open spec fn memory_store(
    pre: Seq<Vec<u8>>,
    post: Seq<Vec<u8>>,
    start: int,
    ms: crate::mm::MemorySet,
    va: usize,
    data: Seq<u8>,
) -> bool {
    &&& post.len() == pre.len()
    &&& forall|a: usize|
        #[trigger] byte_of(post, start, ms, a) == if va <= a < va + data.len() {
            Some(data[a - va])
        } else {
            byte_of(pre, start, ms, a)
        }
    &&& forall|q: usize|
        start <= q < start + pre.len() && !#[trigger] ms.owns(q) ==> post[q - start] == pre[q
            - start]
}

/// What a granted store of `data` at user address `va` does: physical
/// memory changes as `memory_store` says, through the address space of
/// the task on the processor; nothing else in the kernel state changes.
pub open spec fn store_effect(pre: Kernel, post: Kernel, va: usize, data: Seq<u8>) -> bool {
    &&& post.frames == pre.frames
    &&& post.current == pre.current
    &&& post.others == pre.others
    &&& post.next_pid == pre.next_pid
    &&& memory_store(
        pre.memory@,
        post.memory@,
        pre.frames.start_spec(),
        pre.current.memory_set,
        va,
        data,
    )
}

/// Stores `data` at user address `va` through the address space of the
/// task on the processor, across page boundaries. Returns whether the
/// task may write every byte of the range; if not, nothing changes.
pub fn store_user(k: &mut Kernel, va: usize, data: &Vec<u8>) -> (r: bool)
    requires
        old(k).wf(),
    ensures
        final(k).wf(),
        r == user_writable(*old(k), va, data@.len() as usize),
        !r ==> *final(k) == *old(k),
        r ==> store_effect(*old(k), *final(k), va, data@),
{
    if !check_user_writable(k, va, data.len()) {
        return false;
    }
    proof {
        let ms = k.current.memory_set;
        assert forall|a: usize| va <= a < va + data@.len() implies ms.mapped(
            #[trigger] vpn_floor(a),
        ) by {
            assert(ms.translate_spec(vpn_floor(a)) is Some);
        }
        assert forall|q: usize| #[trigger] ms.owns(q) implies k.frames.start_spec() <= q
            < k.frames.start_spec() + k.memory@.len() by {
            assert(k.frames.is_allocated(q));
        }
    }
    store_bytes(&mut k.memory, k.frames.start(), &k.current.memory_set, va, data);
    true
}

/// Stores the clock reading `now_us`, split into seconds and
/// microseconds, as a time record at user address `ts`. Returns 0, or -1
/// with nothing changed if the task may not write every byte of the
/// record.
pub fn sys_get_time(k: &mut Kernel, ts: usize, _tz: usize, now_us: usize) -> (r: isize)
    requires
        old(k).wf(),
    ensures
        final(k).wf(),
        user_writable(*old(k), ts, TIME_VAL_BYTES) ==> r == 0 && store_effect(
            *old(k),
            *final(k),
            ts,
            time_val_bytes((now_us / 1_000_000) as usize, (now_us % 1_000_000) as usize),
        ),
        !user_writable(*old(k), ts, TIME_VAL_BYTES) ==> r == -1 && *final(k) == *old(k),
{
    let tv = TimeVal { sec: now_us / 1_000_000, usec: now_us % 1_000_000 };
    let bytes = encode_time_val(&tv);
    if store_user(k, ts, &bytes) {
        0
    } else {
        -1
    }
}

/// Time, in milliseconds, that the task on the processor has had since
/// its first dispatch, at clock reading `now_ms`.
pub open spec fn elapsed_ms(k: Kernel, now_ms: usize) -> usize {
    match k.current.init_time {
        Some(t0) => if now_ms >= t0 {
            (now_ms - t0) as usize
        } else {
            0
        },
        None => 0,
    }
}

/// Stores status, per-call counts and elapsed time of the task on the
/// processor as a task record at user address `ti`. Returns 0, or -1 with
/// nothing changed if the task may not write every byte of the record.
pub fn sys_task_info(k: &mut Kernel, ti: usize, now_ms: usize) -> (r: isize)
    requires
        old(k).wf(),
    ensures
        final(k).wf(),
        user_writable(*old(k), ti, TASK_INFO_BYTES) ==> r == 0 && store_effect(
            *old(k),
            *final(k),
            ti,
            task_info_bytes(
                TaskStatus::Running,
                old(k).current.syscall_times@,
                elapsed_ms(*old(k), now_ms),
            ),
        ),
        !user_writable(*old(k), ti, TASK_INFO_BYTES) ==> r == -1 && *final(k) == *old(k),
{
    let time: usize = match k.current.init_time {
        Some(t0) => if now_ms >= t0 {
            now_ms - t0
        } else {
            0
        },
        None => 0,
    };
    let info = TaskInfo {
        status: TaskStatus::Running,
        syscall_times: copy_counts(&k.current.syscall_times),
        time,
    };
    let bytes = encode_task_info(&info);
    if store_user(k, ti, &bytes) {
        0
    } else {
        -1
    }
}

/// Sets the priority of the task on the processor. A value of 2 or more
/// is stored and returned; any other value gives -1 and changes nothing.
pub fn sys_set_priority(k: &mut Kernel, prio: isize) -> (r: isize)
    requires
        old(k).wf(),
    ensures
        final(k).wf(),
        prio > 1 ==> r == prio && *final(k) == (Kernel {
            current: TaskControlBlock { priority: prio, ..old(k).current },
            ..*old(k)
        }),
        prio <= 1 ==> r == -1 && *final(k) == *old(k),
{
    if prio <= 1 {
        return -1;
    }
    k.current.priority = prio;
    prio
}


/// The permissions that the low three bits of `port` ask for: bit 0 read,
/// bit 1 write, bit 2 execute; user access is always granted.
pub open spec fn port_perm(port: usize) -> MapPermission {
    MapPermission { r: port & 1 != 0, w: port & 2 != 0, x: port & 4 != 0, u: true }
}

/// Whether a request to map `[start, start + len)` with `port` is granted:
/// `start` is page aligned, `port` has a bit among its low three and none
/// above, the range ends within the address range, no page of it is
/// validly mapped, and the allocator has a free frame for each page.
pub open spec fn mmap_admissible(k: Kernel, start: usize, len: usize, port: usize) -> bool {
    &&& start % PAGE_SIZE == 0
    &&& port & !0x7usize == 0
    &&& port & 0x7 != 0
    &&& start + len <= usize::MAX
    &&& k.frames.free_count() >= vpn_ceil((start + len) as usize) - vpn_floor(start)
    &&& forall|vpn: usize|
        vpn_floor(start) <= vpn < vpn_ceil((start + len) as usize) ==> !(
        #[trigger] k.current.memory_set.translate_spec(vpn) matches Some(e) && e.valid)
}

/// What a granted request to map `[start, start + len)` with `port` does:
/// one area over the pages of the range is added to the address space of
/// the task on the processor, on frames that were free, with the rights
/// that `port` asks for; the translation of every other page, every other
/// task and every other frame stay as they were.
pub open spec fn mmap_effect(pre: Kernel, post: Kernel, start: usize, len: usize, port: usize) -> bool {
    let before = pre.current.memory_set;
    let after = post.current.memory_set;
    let first = vpn_floor(start);
    let last = vpn_ceil((start + len) as usize);
    &&& post.others == pre.others
    &&& post.memory@.len() == pre.memory@.len()
    &&& forall|q: usize|
        pre.frames.start_spec() <= q < pre.frames.start_spec() + pre.memory@.len() ==> if #[trigger] listed(
            after.areas@.last().frames@,
            0,
            q,
        ) {
            all_zero(post.memory@[q - pre.frames.start_spec()]@)
        } else {
            post.memory@[q - pre.frames.start_spec()] == pre.memory@[q - pre.frames.start_spec()]
        }
    &&& post.next_pid == pre.next_pid
    &&& post.current == (TaskControlBlock {
        memory_set: after,
        ..pre.current
    })
    &&& after.heap_bottom == before.heap_bottom
    &&& after.program_brk == before.program_brk
    &&& after.areas@ == before.areas@.push(after.areas@.last())
    &&& after.areas@.last().start_vpn == first
    &&& after.areas@.last().end_vpn == last
    &&& after.areas@.last().perm == port_perm(port)
    &&& post.frames.free_count() == pre.frames.free_count() - (last - first)
    &&& forall|q: usize|
        #[trigger] post.frames.is_allocated(q) == (pre.frames.is_allocated(q)
            || after.areas@.last().frames@.contains(q))
    &&& forall|i: int|
        0 <= i < last - first ==> !pre.frames.is_allocated(
            #[trigger] after.areas@.last().frames@[i],
        )
    &&& forall|vpn: usize|
        first <= vpn < last ==> (#[trigger] after.translate_spec(vpn) matches Some(e)
            && e.valid && e.perm == port_perm(port))
    &&& forall|vpn: usize|
        !(first <= vpn < last) ==> #[trigger] after.translate_spec(vpn)
            == before.translate_spec(vpn)
}

/// Maps `[start, start + len)` for the task on the processor, each page to
/// a fresh frame. Returns 0 when the request is granted, and -1 with
/// nothing changed when it is not.
pub fn sys_mmap(k: &mut Kernel, start: usize, len: usize, port: usize) -> (r: isize)
    requires
        old(k).wf(),
    ensures
        final(k).wf(),
        mmap_admissible(*old(k), start, len, port) ==> r == 0,
        !mmap_admissible(*old(k), start, len, port) ==> r == -1 && *final(k) == *old(k),
        r == 0 ==> mmap_effect(*old(k), *final(k), start, len, port),
{
    if !page_aligned(start) {
        return -1;
    }
    if (port & !0x7usize) != 0 || (port & 0x7) == 0 {
        return -1;
    }
    if len > usize::MAX - start {
        return -1;
    }
    let start_vpn = floor_vpn(start);
    let end_vpn = ceil_vpn(start + len);
    if k.frames.unused_count() < end_vpn - start_vpn {
        return -1;
    }
    if !k.current.memory_set.range_unmapped(start_vpn, end_vpn) {
        proof {
            let w = choose|w: usize| start_vpn <= w < end_vpn && k.current.memory_set.mapped(w);
            assert(k.current.memory_set.translate_spec(w) is Some);
        }
        return -1;
    }
    let perm = MapPermission {
        r: (port & 1) != 0,
        w: (port & 2) != 0,
        x: (port & 4) != 0,
        u: true,
    };
    proof {
        assert forall|vpn: usize| start_vpn <= vpn < end_vpn implies !(
        #[trigger] k.current.memory_set.translate_spec(vpn) matches Some(e) && e.valid) by {
            assert(!k.current.memory_set.mapped(vpn));
        }
    }
    k.current.memory_set.insert_framed_area(start, start + len, perm, &mut k.frames);
    let top = k.current.memory_set.areas.len() - 1;
    proof {
        let fresh = k.current.memory_set.areas@.last().frames@;
        assert forall|i: int| 0 <= i < fresh.len() implies k.frames.is_allocated(
            #[trigger] fresh[i],
        ) by {
            assert(fresh.contains(fresh[i]));
        }
    }
    zero_frames(&mut k.memory, k.frames.start(), &k.current.memory_set.areas[top].frames, 0);
    proof {
        let fresh = k.current.memory_set.areas@.last().frames@;
        assert forall|i: int, q: usize| 0 <= i < k.others@.len() implies !(
        #[trigger] k.others@[i].memory_set.owns(q) && k.current.memory_set.owns(q)) by {
            if k.others@[i].memory_set.owns(q) && fresh.contains(q) {
                let m = choose|m: int| 0 <= m < fresh.len() && fresh[m] == q;
                assert(!old(k).frames.is_allocated(fresh[m]));
            }
        }
    }
    0
}

/// Whether a request to unmap `[start, start + len)` is granted: `start`
/// is page aligned, the range ends within the address range, every page
/// of it is validly mapped, and it is exactly the range of one area, the
/// heap or any other.
pub open spec fn munmap_admissible(k: Kernel, start: usize, len: usize) -> bool {
    &&& start % PAGE_SIZE == 0
    &&& start + len <= usize::MAX
    &&& forall|vpn: usize|
        vpn_floor(start) <= vpn < vpn_ceil((start + len) as usize) ==> (
        #[trigger] k.current.memory_set.translate_spec(vpn) matches Some(e) && e.valid)
    &&& find_area(
        k.current.memory_set.areas@,
        vpn_floor(start),
        vpn_ceil((start + len) as usize),
        0,
    ) < k.current.memory_set.areas@.len()
}

/// What a granted request to unmap `[start, start + len)` does: the
/// frames of the first area with exactly that page range become free and
/// its pages no longer translate. An area after the heap leaves the
/// address space of the task on the processor; the heap stays as an area
/// without pages, with the break back at its floor. The translation of
/// every other page, every other task and every other frame stay as they
/// were.
pub open spec fn munmap_effect(pre: Kernel, post: Kernel, start: usize, len: usize) -> bool {
    let before = pre.current.memory_set;
    let after = post.current.memory_set;
    let first = vpn_floor(start);
    let last = vpn_ceil((start + len) as usize);
    let n = find_area(before.areas@, first, last, 0);
    &&& post.others == pre.others
    &&& post.memory == pre.memory
    &&& post.next_pid == pre.next_pid
    &&& post.current == (TaskControlBlock {
        memory_set: after,
        ..pre.current
    })
    &&& after.heap_bottom == before.heap_bottom
    &&& 0 <= n < before.areas@.len()
    &&& n >= 1 ==> after.areas@ == before.areas@.remove(n) && after.program_brk
        == before.program_brk
    &&& n == 0 ==> {
        &&& after.areas@ == before.areas@.update(0, after.areas@[0])
        &&& after.areas@[0].start_vpn == first
        &&& after.areas@[0].end_vpn == first
        &&& after.areas@[0].perm == before.areas@[0].perm
        &&& after.areas@[0].frames@.len() == 0
        &&& after.program_brk == before.heap_bottom
    }
    &&& post.frames.free_count() == pre.frames.free_count() + (last - first)
    &&& forall|q: usize|
        #[trigger] post.frames.is_allocated(q) == (pre.frames.is_allocated(q)
            && !before.areas@[n].frames@.contains(q))
    &&& forall|vpn: usize|
        first <= vpn < last ==> #[trigger] after.translate_spec(vpn) is None
    &&& forall|vpn: usize|
        !(first <= vpn < last) ==> #[trigger] after.translate_spec(vpn)
            == before.translate_spec(vpn)
}

/// Unmaps `[start, start + len)` for the task on the processor and frees
/// its frames. Returns 0 when the request is granted, and -1 with nothing
/// changed when it is not.
pub fn sys_munmap(k: &mut Kernel, start: usize, len: usize) -> (r: isize)
    requires
        old(k).wf(),
    ensures
        final(k).wf(),
        munmap_admissible(*old(k), start, len) ==> r == 0,
        !munmap_admissible(*old(k), start, len) ==> r == -1 && *final(k) == *old(k),
        r == 0 ==> munmap_effect(*old(k), *final(k), start, len),
{
    if !page_aligned(start) {
        return -1;
    }
    if len > usize::MAX - start {
        return -1;
    }
    let start_vpn = floor_vpn(start);
    let end_vpn = ceil_vpn(start + len);
    if !k.current.memory_set.range_mapped(start_vpn, end_vpn) {
        return -1;
    }
    let removed = k.current.memory_set.remove_area_with_start_vpn(start_vpn, end_vpn, &mut k.frames);
    if !removed {
        return -1;
    }
    0
}


/// Whether `t` is a child of the task `parent` that the filter `pid`
/// selects; -1 selects every child.
pub open spec fn child_matches(t: TaskControlBlock, parent: usize, pid: isize) -> bool {
    t.parent == Some(parent) && (pid == -1 || pid == t.pid)
}

/// Index of the first zombie among the selected children at or after
/// `from`, or `others.len()` if there is none.
pub open spec fn first_zombie_child(
    others: Seq<TaskControlBlock>,
    parent: usize,
    pid: isize,
    from: int,
) -> int
    decreases others.len() - from,
{
    if from < 0 || from >= others.len() {
        others.len() as int
    } else if child_matches(others[from], parent, pid) && others[from].status
        == TaskStatus::Zombie {
        from
    } else {
        first_zombie_child(others, parent, pid, from + 1)
    }
}

/// Whether the task on the processor has a child that `pid` selects.
pub open spec fn has_child(k: Kernel, pid: isize) -> bool {
    exists|i: int|
        0 <= i < k.others@.len() && child_matches(#[trigger] k.others@[i], k.current.pid, pid)
}

/// The status word of a wait with filter `pid`: -1 without a selected
/// child, -2 with selected children none of which is a zombie, else the
/// pid of the first selected zombie.
pub open spec fn wait_status(k: Kernel, pid: isize) -> int {
    let z = first_zombie_child(k.others@, k.current.pid, pid, 0);
    if !has_child(k, pid) {
        -1
    } else if z >= k.others@.len() {
        -2
    } else {
        k.others@[z].pid as int
    }
}

/// Decides `child_matches`.
fn is_selected_child(t: &TaskControlBlock, parent: usize, pid: isize) -> (r: bool)
    requires
        t.pid <= isize::MAX,
    ensures
        r == child_matches(*t, parent, pid),
{
    let by_parent = match t.parent {
        Some(p) => p == parent,
        None => false,
    };
    by_parent && (pid == -1 || pid == t.pid as isize)
}

/// Looks for the child that a wait with filter `pid` would reap. Returns
/// the wait's status word and, where that is a pid, the place of the
/// child in `others`.
pub fn wait_lookup(k: &Kernel, pid: isize) -> (r: (isize, usize))
    requires
        k.wf(),
    ensures
        r.0 == wait_status(*k, pid),
        r.0 >= 0 ==> r.1 == first_zombie_child(k.others@, k.current.pid, pid, 0) && r.1
            < k.others@.len() && has_child(*k, pid),
        r.0 == -1 ==> !has_child(*k, pid),
        r.0 == -2 ==> has_child(*k, pid) && first_zombie_child(
            k.others@,
            k.current.pid,
            pid,
            0,
        ) >= k.others@.len(),
{
    let parent = k.current.pid;
    let mut i: usize = 0;
    while i < k.others.len() && !is_selected_child(&k.others[i], parent, pid)
        invariant
            i <= k.others@.len(),
            k.wf(),
            parent == k.current.pid,
            forall|j: int| 0 <= j < i ==> !child_matches(#[trigger] k.others@[j], parent, pid),
        decreases k.others@.len() - i,
    {
        i = i + 1;
    }
    if i >= k.others.len() {
        return (-1, 0);
    }
    assert(child_matches(k.others@[i as int], parent, pid));
    let mut z: usize = 0;
    while z < k.others.len() && !(is_selected_child(&k.others[z], parent, pid) && matches!(
        k.others[z].status,
        TaskStatus::Zombie
    ))
        invariant
            z <= k.others@.len(),
            k.wf(),
            parent == k.current.pid,
            first_zombie_child(k.others@, parent, pid, 0) == first_zombie_child(
                k.others@,
                parent,
                pid,
                z as int,
            ),
        decreases k.others@.len() - z,
    {
        z = z + 1;
    }
    if z >= k.others.len() {
        return (-2, 0);
    }
    (k.others[z].pid as isize, z)
}

/// Reaps one zombie child of the task on the processor. Returns -1 if no
/// child is selected by `pid`, -2 if some is but none of them is a zombie;
/// otherwise the first selected zombie leaves the process table, its
/// frames are freed, its exit code is stored at user address
/// `exit_code_ptr` through the caller's address space, and its pid is
/// returned. A wait that reaps needs an address the caller may write.
pub fn sys_waitpid(k: &mut Kernel, pid: isize, exit_code_ptr: usize) -> (r: isize)
    requires
        old(k).wf(),
        wait_status(*old(k), pid) >= 0 ==> user_writable(*old(k), exit_code_ptr, 4),
    ensures
        final(k).wf(),
        r == wait_status(*old(k), pid),
        final(k).current == old(k).current,
        final(k).next_pid == old(k).next_pid,
        !has_child(*old(k), pid) ==> r == -1 && *final(k) == *old(k),
        has_child(*old(k), pid) && first_zombie_child(old(k).others@, old(k).current.pid, pid, 0)
            >= old(k).others@.len() ==> r == -2 && *final(k) == *old(k),
        has_child(*old(k), pid) && first_zombie_child(old(k).others@, old(k).current.pid, pid, 0)
            < old(k).others@.len() ==> {
            let z = first_zombie_child(old(k).others@, old(k).current.pid, pid, 0);
            let child = old(k).others@[z];
            &&& r == child.pid
            &&& final(k).others@ == old(k).others@.remove(z)
            &&& final(k).frames.free_count() == old(k).frames.free_count()
                + child.memory_set.page_count()
            &&& forall|q: usize|
                #[trigger] final(k).frames.is_allocated(q) == (old(k).frames.is_allocated(q)
                    && !child.memory_set.owns(q))
            &&& memory_store(
                old(k).memory@,
                final(k).memory@,
                old(k).frames.start_spec(),
                old(k).current.memory_set,
                exit_code_ptr,
                exit_code_bytes(child.exit_code),
            )
        },
{
    let (status, z) = wait_lookup(k, pid);
    if status < 0 {
        return status;
    }
    let child = k.others.remove(z);
    let found_pid = child.pid;
    let exit_code = child.exit_code;
    proof {
        let before = old(k).others@;
        let now = k.others@;
        assert(child == before[z as int]);
        assert forall|j: int| 0 <= j < now.len() implies now[j] == before[if j < z {
            j
        } else {
            j + 1
        }] by {}
    }
    child.memory_set.destroy(&mut k.frames);
    proof {
        let before = old(k).others@;
        let now = k.others@;
        assert forall|q: usize| #[trigger] k.current.memory_set.owns(q) implies k.frames.is_allocated(
            q,
        ) by {
            assert(!(before[z as int].memory_set.owns(q) && k.current.memory_set.owns(q)));
        }
        assert forall|j: int| 0 <= j < now.len() implies {
            &&& (#[trigger] now[j]).wf()
            &&& now[j].memory_set.backed_by(k.frames)
            &&& now[j].pid < k.next_pid
            &&& now[j].pid != k.current.pid
            &&& now[j].status != TaskStatus::Running
        } by {
            let j0 = if j < z { j } else { j + 1 };
            assert(now[j] == before[j0]);
            assert forall|q: usize| #[trigger] now[j].memory_set.owns(q) implies k.frames.is_allocated(
                q,
            ) by {
                assert(before[j0].memory_set.owns(q));
                if j0 < z {
                    assert(!(before[j0].memory_set.owns(q) && before[z as int].memory_set.owns(q)));
                } else {
                    assert(!(before[z as int].memory_set.owns(q) && before[j0].memory_set.owns(q)));
                }
            }
        }
        assert forall|j: int, q: usize| 0 <= j < now.len() implies !(
        #[trigger] now[j].memory_set.owns(q) && k.current.memory_set.owns(q)) by {
            let j0 = if j < z { j } else { j + 1 };
            assert(now[j] == before[j0]);
            assert(!(before[j0].memory_set.owns(q) && old(k).current.memory_set.owns(q)));
        }
        assert forall|a: int, b: int, q: usize| 0 <= a < b < now.len() implies !(
        #[trigger] now[a].memory_set.owns(q) && #[trigger] now[b].memory_set.owns(q)) by {
            let a0 = if a < z { a } else { a + 1 };
            let b0 = if b < z { b } else { b + 1 };
            assert(now[a] == before[a0] && now[b] == before[b0]);
            assert(!(before[a0].memory_set.owns(q) && before[b0].memory_set.owns(q)));
        }
        assert forall|a: int, b: int| 0 <= a < b < now.len() implies (#[trigger] now[a]).pid != (
        #[trigger] now[b]).pid by {
            let a0 = if a < z { a } else { a + 1 };
            let b0 = if b < z { b } else { b + 1 };
            assert(now[a] == before[a0] && now[b] == before[b0]);
        }
        assert forall|q: usize| #[trigger] k.frames.is_allocated(q) implies (
        k.current.memory_set.owns(q) || k.owned_by_other(q)) by {
            if !old(k).current.memory_set.owns(q) {
                assert(old(k).owned_by_other(q));
                let i = choose|i: int|
                    0 <= i < before.len() && #[trigger] before[i].memory_set.owns(q);
                let i1 = if i < z { i } else { i - 1 };
                assert(now[i1] == before[i]);
                assert(now[i1].memory_set.owns(q));
            }
        }
    }
    assert(k.wf());
    let bytes = encode_exit_code(exit_code);
    let stored = store_user(k, exit_code_ptr, &bytes);
    assert(stored);
    found_pid as isize
}


/// Whether the task on the processor can be duplicated: a pid is left and
/// the allocator has a free frame for each of the task's pages.
pub open spec fn fork_admissible(k: Kernel) -> bool {
    &&& k.next_pid < isize::MAX
    &&& k.frames.free_count() >= k.current.memory_set.page_count()
}

/// Whether `child` is what a fork of `parent` under pid `pid` starts as:
/// ready, never dispatched, with fresh counters, the default priority,
/// the parent's saved context but for a return value of 0, and an address
/// space over the same areas as the parent's.
pub open spec fn is_fork_of(child: TaskControlBlock, parent: TaskControlBlock, pid: usize) -> bool {
    &&& child.pid == pid
    &&& child.status == TaskStatus::Ready
    &&& child.parent == Some(parent.pid)
    &&& child.exit_code == 0
    &&& child.init_time is None
    &&& child.priority == DEFAULT_PRIORITY
    &&& child.trap_cx == (TrapContext { a0: 0, ..parent.trap_cx })
    &&& child.syscall_times@.len() == MAX_SYSCALL_NUM
    &&& forall|i: int| 0 <= i < MAX_SYSCALL_NUM ==> child.syscall_times@[i] == 0
    &&& child.memory_set.heap_bottom == parent.memory_set.heap_bottom
    &&& child.memory_set.program_brk == parent.memory_set.program_brk
    &&& child.memory_set.areas@.len() == parent.memory_set.areas@.len()
    &&& forall|i: int|
        0 <= i < parent.memory_set.areas@.len() ==> {
            &&& (#[trigger] child.memory_set.areas@[i]).start_vpn
                == parent.memory_set.areas@[i].start_vpn
            &&& child.memory_set.areas@[i].end_vpn == parent.memory_set.areas@[i].end_vpn
            &&& child.memory_set.areas@[i].perm == parent.memory_set.areas@[i].perm
        }
    &&& forall|vpn: usize|
        match (
            parent.memory_set.translate_spec(vpn),
            #[trigger] child.memory_set.translate_spec(vpn),
        ) {
            (Some(a), Some(b)) => a.valid == b.valid && a.perm == b.perm,
            (None, None) => true,
            _ => false,
        }
}

/// Duplicates the task on the processor. The child gets the next pid, a
/// copy of the address space on frames of its own and a saved return
/// value of 0, and joins the back of the ready order. Returns the child's
/// pid, or -1 with nothing changed when no pid or not enough frames are
/// left.
pub fn sys_fork(k: &mut Kernel) -> (r: isize)
    requires
        old(k).wf(),
    ensures
        final(k).wf(),
        !fork_admissible(*old(k)) ==> r == -1 && *final(k) == *old(k),
        fork_admissible(*old(k)) ==> {
            let child = final(k).others@.last();
            &&& r == old(k).next_pid
            &&& final(k).next_pid == old(k).next_pid + 1
            &&& final(k).current == old(k).current
            &&& final(k).others@ == old(k).others@.push(child)
            &&& is_fork_of(child, old(k).current, old(k).next_pid)
            &&& final(k).memory@.len() == old(k).memory@.len()
            &&& forall|va: usize|
                #[trigger] final(k).byte_at(child.memory_set, va) == old(k).byte_at(
                    old(k).current.memory_set,
                    va,
                )
            &&& forall|i: int|
                0 <= i < old(k).memory@.len() && !child.memory_set.owns(
                    (old(k).frames.start_spec() + i) as usize,
                ) ==> #[trigger] final(k).memory@[i] == old(k).memory@[i]
            &&& final(k).frames.free_count() == old(k).frames.free_count()
                - old(k).current.memory_set.page_count()
            &&& forall|q: usize|
                #[trigger] child.memory_set.owns(q) ==> !old(k).frames.is_allocated(q) && !old(k).current.memory_set.owns(q)
            &&& forall|q: usize|
                #[trigger] final(k).frames.is_allocated(q) == (old(k).frames.is_allocated(q)
                    || child.memory_set.owns(q))
        },
{
    if k.next_pid >= isize::MAX as usize {
        return -1;
    }
    let free = k.frames.unused_count();
    match k.current.memory_set.page_total() {
        None => {
            return -1;
        },
        Some(n) => {
            if free < n {
                return -1;
            }
        },
    }
    let memory_set = k.current.memory_set.fork_copy(&mut k.frames);
    proof {
        assert forall|a: int| 0 <= a < memory_set.areas@.len() implies (
        #[trigger] k.current.memory_set.areas@[a]).frames@.len()
            == memory_set.areas@[a].frames@.len() by {
            assert(memory_set.areas@[a].wf());
            assert(k.current.memory_set.areas@[a].wf());
        }
        assert forall|q: usize| #[trigger] k.current.memory_set.owns(q) implies !memory_set.owns(
            q,
        ) && k.frames.start_spec() <= q < k.frames.start_spec() + k.memory@.len() by {
            assert(old(k).frames.is_allocated(q));
        }
        assert forall|q: usize| #[trigger] memory_set.owns(q) implies k.frames.start_spec() <= q
            < k.frames.start_spec() + k.memory@.len() by {
            assert(k.frames.is_allocated(q));
        }
    }
    copy_pages(&mut k.memory, k.frames.start(), &k.current.memory_set, &memory_set);
    let ghost child_ms = memory_set;
    let pid = k.next_pid;
    let child = TaskControlBlock {
        pid,
        status: TaskStatus::Ready,
        memory_set,
        trap_cx: TrapContext { a0: 0, sepc: k.current.trap_cx.sepc, sp: k.current.trap_cx.sp },
        parent: Some(k.current.pid),
        exit_code: 0,
        syscall_times: zero_counts(),
        init_time: None,
        priority: DEFAULT_PRIORITY,
    };
    k.others.push(child);
    k.next_pid = k.next_pid + 1;
    proof {
        let before = old(k).others@;
        let now = k.others@;
        let n = before.len() as int;
        let c = now[n];
        assert(now =~= before.push(c));
        assert forall|i: int| 0 <= i < n implies now[i] == before[i] by {}
        assert forall|i: int, q: usize| 0 <= i < now.len() implies !(
        #[trigger] now[i].memory_set.owns(q) && k.current.memory_set.owns(q)) by {
            if i < n {
                assert(now[i] == before[i]);
            }
        }
        assert forall|i: int, j: int, q: usize| 0 <= i < j < now.len() implies !(
        #[trigger] now[i].memory_set.owns(q) && #[trigger] now[j].memory_set.owns(q)) by {
            assert(now[i] == before[i]);
            if j < n {
                assert(now[j] == before[j]);
            }
        }
        assert(c.memory_set == child_ms);
        let parent = old(k).current.memory_set;
        let base = k.frames.start_spec();
        assert forall|va: usize|
            #[trigger] k.byte_at(c.memory_set, va) == old(k).byte_at(parent, va) by {
            let vpn = vpn_floor(va);
            if parent.mapped(vpn) {
                let a = choose|a: int|
                    0 <= a < parent.areas@.len() && (#[trigger] parent.areas@[a]).covers(vpn);
                assert(child_ms.areas@[a].covers(vpn));
                parent.lemma_translate(a, vpn);
                child_ms.lemma_translate(a, vpn);
                assert(child_ms.areas@[a].wf());
                assert(parent.areas@[a].wf());
                let p = vpn - parent.areas@[a].start_vpn;
                assert(child_ms.owns(child_ms.areas@[a].frames@[p]));
                assert(parent.owns(parent.areas@[a].frames@[p]));
                assert(k.memory@[child_ms.areas@[a].frames@[p] - base]@
                    == old(k).memory@[parent.areas@[a].frames@[p] - base]@);
            }
        }
        assert forall|q: usize| #[trigger] k.frames.is_allocated(q) implies (
        k.current.memory_set.owns(q) || k.owned_by_other(q)) by {
            if !old(k).frames.is_allocated(q) {
                assert(now[n].memory_set.owns(q));
            } else if !old(k).current.memory_set.owns(q) {
                assert(old(k).owned_by_other(q));
                let i = choose|i: int|
                    0 <= i < before.len() && #[trigger] before[i].memory_set.owns(q);
                assert(now[i] == before[i]);
                assert(now[i].memory_set.owns(q));
            }
        }
    }
    pid as isize
}


/// Whether the break of the task on the processor can move by `size`
/// bytes with the old break reported as a non-negative status word.
pub open spec fn sbrk_admissible(k: Kernel, size: i32) -> bool {
    &&& k.current.memory_set.program_brk <= isize::MAX
    &&& k.current.memory_set.heap_admissible(k.frames, size)
}

/// Moves the break of the task on the processor by `size` bytes and
/// returns the old break, or -1 with nothing changed when the move is not
/// admissible.
pub fn sys_sbrk(k: &mut Kernel, size: i32) -> (r: isize)
    requires
        old(k).wf(),
    ensures
        final(k).wf(),
        !sbrk_admissible(*old(k), size) ==> r == -1 && *final(k) == *old(k),
        sbrk_admissible(*old(k), size) ==> {
            let before = old(k).current.memory_set;
            let after = final(k).current.memory_set;
            &&& r == before.program_brk
            &&& final(k).others == old(k).others
            &&& final(k).memory@.len() == old(k).memory@.len()
            &&& forall|q: usize|
                old(k).frames.start_spec() <= q < old(k).frames.start_spec() + old(k).memory@.len()
                    ==> if #[trigger] listed(
                    after.areas@[0].frames@,
                    before.areas@[0].frames@.len() as int,
                    q,
                ) {
                    all_zero(final(k).memory@[q - old(k).frames.start_spec()]@)
                } else {
                    final(k).memory@[q - old(k).frames.start_spec()] == old(k).memory@[q - old(k).frames.start_spec()]
                }
            &&& final(k).next_pid == old(k).next_pid
            &&& final(k).current == (TaskControlBlock { memory_set: after, ..old(k).current })
            &&& after.program_brk == before.program_brk + size
            &&& after.heap_bottom == before.heap_bottom
            &&& after.areas@ == before.areas@.update(0, after.areas@[0])
            &&& after.areas@[0].start_vpn == before.areas@[0].start_vpn
            &&& after.areas@[0].end_vpn == vpn_ceil(after.program_brk)
            &&& after.areas@[0].perm == before.areas@[0].perm
            &&& final(k).frames.free_count() == old(k).frames.free_count() - (
            after.areas@[0].end_vpn - before.areas@[0].end_vpn)
            &&& forall|q: usize|
                #[trigger] final(k).frames.is_allocated(q) == ((old(k).frames.is_allocated(q)
                    && !before.owns(q)) || after.owns(q))
        },
{
    let old_brk = k.current.memory_set.program_brk;
    if old_brk > isize::MAX as usize {
        return -1;
    }
    let had = k.current.memory_set.areas[0].frames.len();
    match k.current.memory_set.adjust_heap(size, &mut k.frames) {
        Some(_) => {
            if k.current.memory_set.areas[0].frames.len() > had {
                proof {
                    let v = k.current.memory_set.areas@[0].frames@;
                    assert forall|i: int| had <= i < v.len() implies k.frames.is_allocated(
                        #[trigger] v[i],
                    ) by {
                        assert(k.current.memory_set.owns(k.current.memory_set.areas@[0].frames@[i]));
                    }
                }
                zero_frames(
                    &mut k.memory,
                    k.frames.start(),
                    &k.current.memory_set.areas[0].frames,
                    had,
                );
            }
            proof {
                assert forall|i: int, q: usize| 0 <= i < k.others@.len() implies !(
                #[trigger] k.others@[i].memory_set.owns(q) && k.current.memory_set.owns(q)) by {
                    if k.others@[i].memory_set.owns(q) && k.current.memory_set.owns(q) {
                        assert(old(k).frames.is_allocated(q));
                        assert(!(old(k).others@[i].memory_set.owns(q) && old(k).current.memory_set.owns(q)));
                    }
                }
                assert forall|i: int| 0 <= i < k.others@.len() implies (
                #[trigger] k.others@[i]).memory_set.backed_by(k.frames) by {
                    assert forall|q: usize| #[trigger]
                        k.others@[i].memory_set.owns(q) implies k.frames.is_allocated(q) by {
                        assert(old(k).frames.is_allocated(q));
                        assert(!(old(k).others@[i].memory_set.owns(q) && old(k).current.memory_set.owns(q)));
                    }
                }
            }
            old_brk as isize
        },
        None => -1,
    }
}


/// Whether `img` can be loaded with the frames that are free now: it can
/// be laid out, and its regions can all be mapped.
pub open spec fn image_loadable(k: Kernel, img: LoadedImage) -> bool {
    &&& image_well_placed(img)
    &&& plan_admissible(plan_of(img), k.frames.free_count())
}

/// Whether `ms` is the address space built for `img`: an empty heap at
/// the stack top, then one area per region of the image's plan.
pub open spec fn is_image_space(ms: crate::mm::MemorySet, img: LoadedImage) -> bool {
    &&& ms.heap_bottom == img.user_stack_top
    &&& ms.program_brk == img.user_stack_top
    &&& ms.areas@.len() == plan_of(img).len() + 1
    &&& forall|i: int|
        0 <= i < plan_of(img).len() ==> {
            &&& (#[trigger] ms.areas@[i + 1]).start_vpn == plan_of(img)[i].start_vpn
            &&& ms.areas@[i + 1].end_vpn == plan_of(img)[i].end_vpn
            &&& ms.areas@[i + 1].perm == plan_of(img)[i].perm
        }
}

/// Whether the address space `ms` holds the image's bytes in `memory`,
/// whose page `i` is that of frame `start + i`: each segment's bytes stand
/// at the segment's start, and every other mapped byte is zero.
pub open spec fn holds_image_bytes(
    memory: Seq<Vec<u8>>,
    start: int,
    ms: crate::mm::MemorySet,
    img: LoadedImage,
) -> bool {
    &&& forall|t: int, j: int|
        0 <= t < img.segments@.len() && 0 <= j < img.segments@[t].data@.len() ==> byte_of(
            memory,
            start,
            ms,
            (img.segments@[t].start_va + j) as usize,
        ) == Some(#[trigger] img.segments@[t].data@[j])
    &&& forall|a: usize|
        !in_segment_data(img.segments@, img.segments@.len() as int, a) && ms.mapped(vpn_floor(a))
            ==> #[trigger] byte_of(memory, start, ms, a) == Some(0u8)
}

/// Replaces the program of the task on the processor with `image`, the
/// loader's report for the requested path, or `None` if the path names no
/// program. The task keeps its pid, parent, children, counters and
/// priority; its old address space is torn down. Returns 0, or -1 with
/// nothing changed when there is no image or it cannot be loaded.
pub fn sys_exec(k: &mut Kernel, image: Option<&LoadedImage>) -> (r: isize)
    requires
        old(k).wf(),
    ensures
        final(k).wf(),
        (image matches Some(img) && image_loadable(*old(k), *img)) ==> {
            let img = *image->0;
            let after = final(k).current.memory_set;
            &&& r == 0
            &&& final(k).others == old(k).others
            &&& final(k).memory@.len() == old(k).memory@.len()
            &&& forall|q: usize|
                old(k).frames.start_spec() <= q < old(k).frames.start_spec() + old(k).memory@.len()
                    && !#[trigger] after.owns(q) ==> final(k).memory@[q - old(
                    k).frames.start_spec()] == old(k).memory@[q - old(k).frames.start_spec()]
            &&& holds_image_bytes(final(k).memory@, final(k).frames.start_spec(), after, img)
            &&& final(k).next_pid == old(k).next_pid
            &&& final(k).current == (TaskControlBlock {
                memory_set: after,
                trap_cx: TrapContext { a0: 0, sepc: img.entry_point, sp: img.user_stack_top },
                ..old(k).current
            })
            &&& is_image_space(after, img)
            &&& final(k).frames.free_count() == old(k).frames.free_count() - total_pages(
                plan_of(img),
                plan_of(img).len() as int,
            ) + old(k).current.memory_set.page_count()
            &&& forall|q: usize|
                #[trigger] final(k).frames.is_allocated(q) == ((old(k).frames.is_allocated(q)
                    && !old(k).current.memory_set.owns(q)) || after.owns(q))
        },
        !(image matches Some(img) && image_loadable(*old(k), *img)) ==> r == -1 && *final(k)
            == *old(k),
{
    let img = match image {
        Some(img) => img,
        None => {
            return -1;
        },
    };
    let plan = match image_plan(img) {
        Some(p) => p,
        None => {
            return -1;
        },
    };
    if !check_plan(&plan, k.frames.unused_count()) {
        return -1;
    }
    let mut space = from_plan(&plan, img.user_stack_top, &mut k.frames);
    let ghost mid = k.frames;
    core::mem::swap(&mut k.current.memory_set, &mut space);
    proof {
        assert forall|q: usize| #[trigger] space.owns(q) implies mid.is_allocated(q) by {}
    }
    space.destroy(&mut k.frames);
    proof {
        assert forall|q: usize| #[trigger] k.current.memory_set.owns(q) implies k.frames.is_allocated(
            q,
        ) by {
            assert(!old(k).frames.is_allocated(q));
        }
    }
    zero_space(&mut k.memory, k.frames.start(), &k.current.memory_set);
    let ghost zeroed = k.memory@;
    load_segments(&mut k.memory, k.frames.start(), &k.current.memory_set, img);
    proof {
        let ms = k.current.memory_set;
        let base = k.frames.start_spec();
        assert forall|a: usize|
            !in_segment_data(img.segments@, img.segments@.len() as int, a) && ms.mapped(
                vpn_floor(a),
            ) implies #[trigger] byte_of(k.memory@, base, ms, a) == Some(0u8) by {
            ms.lemma_translate_owned(vpn_floor(a));
            let q = ms.translate_spec(vpn_floor(a))->0.ppn;
            assert(ms.owns(q));
            assert(all_zero(zeroed[q - base]@));
            assert(byte_of(zeroed, base, ms, a) == Some(0u8));
        }
        assert(holds_image_bytes(k.memory@, base, ms, *img));
    }
    k.current.trap_cx = TrapContext { a0: 0, sepc: img.entry_point, sp: img.user_stack_top };
    proof {
        let gone = old(k).current.memory_set;
        assert forall|i: int| 0 <= i < k.others@.len() implies (
        #[trigger] k.others@[i]).memory_set.backed_by(k.frames) by {
            assert forall|q: usize| #[trigger]
                k.others@[i].memory_set.owns(q) implies k.frames.is_allocated(q) by {
                assert(old(k).frames.is_allocated(q));
                assert(!(old(k).others@[i].memory_set.owns(q) && gone.owns(q)));
            }
        }
        assert forall|i: int, q: usize| 0 <= i < k.others@.len() implies !(
        #[trigger] k.others@[i].memory_set.owns(q) && k.current.memory_set.owns(q)) by {
            if k.others@[i].memory_set.owns(q) {
                assert(old(k).frames.is_allocated(q));
            }
        }
    }
    0
}

/// Whether a task can be spawned from `img`: a pid is left and the image
/// can be loaded with the frames that are free now.
pub open spec fn spawn_admissible(k: Kernel, img: LoadedImage) -> bool {
    &&& k.next_pid < isize::MAX
    &&& image_loadable(k, img)
}

/// Creates a child of the task on the processor that runs `image`, the
/// loader's report for the requested path, or `None` if the path names no
/// program. The child gets the next pid, fresh counters and an address
/// space built from the image alone, and joins the back of the ready
/// order. Returns the child's pid, or -1 with nothing changed when there
/// is no image, it cannot be loaded, or no pid is left.
pub fn sys_spawn(k: &mut Kernel, image: Option<&LoadedImage>) -> (r: isize)
    requires
        old(k).wf(),
    ensures
        final(k).wf(),
        (image matches Some(img) && spawn_admissible(*old(k), *img)) ==> {
            let img = *image->0;
            let child = final(k).others@.last();
            &&& r == old(k).next_pid
            &&& final(k).next_pid == old(k).next_pid + 1
            &&& final(k).memory@.len() == old(k).memory@.len()
            &&& forall|q: usize|
                old(k).frames.start_spec() <= q < old(k).frames.start_spec() + old(k).memory@.len()
                    && !#[trigger] child.memory_set.owns(q) ==> final(k).memory@[q - old(
                    k).frames.start_spec()] == old(k).memory@[q - old(k).frames.start_spec()]
            &&& holds_image_bytes(
                final(k).memory@,
                final(k).frames.start_spec(),
                child.memory_set,
                img,
            )
            &&& final(k).current == old(k).current
            &&& final(k).others@ == old(k).others@.push(child)
            &&& child.pid == old(k).next_pid
            &&& child.status == TaskStatus::Ready
            &&& child.parent == Some(old(k).current.pid)
            &&& child.exit_code == 0
            &&& child.init_time is None
            &&& child.priority == DEFAULT_PRIORITY
            &&& child.trap_cx == (TrapContext {
                a0: 0,
                sepc: img.entry_point,
                sp: img.user_stack_top,
            })
            &&& child.syscall_times@.len() == MAX_SYSCALL_NUM
            &&& forall|i: int| 0 <= i < MAX_SYSCALL_NUM ==> child.syscall_times@[i] == 0
            &&& is_image_space(child.memory_set, img)
            &&& final(k).frames.free_count() == old(k).frames.free_count() - total_pages(
                plan_of(img),
                plan_of(img).len() as int,
            )
            &&& forall|q: usize|
                #[trigger] final(k).frames.is_allocated(q) == (old(k).frames.is_allocated(q)
                    || child.memory_set.owns(q))
        },
        !(image matches Some(img) && spawn_admissible(*old(k), *img)) ==> r == -1 && *final(k)
            == *old(k),
{
    let img = match image {
        Some(img) => img,
        None => {
            return -1;
        },
    };
    if k.next_pid >= isize::MAX as usize {
        return -1;
    }
    let plan = match image_plan(img) {
        Some(p) => p,
        None => {
            return -1;
        },
    };
    if !check_plan(&plan, k.frames.unused_count()) {
        return -1;
    }
    let memory_set = from_plan(&plan, img.user_stack_top, &mut k.frames);
    proof {
        assert forall|q: usize| #[trigger] memory_set.owns(q) implies k.frames.is_allocated(q) by {}
    }
    zero_space(&mut k.memory, k.frames.start(), &memory_set);
    let ghost zeroed = k.memory@;
    load_segments(&mut k.memory, k.frames.start(), &memory_set, img);
    let ghost child_ms = memory_set;
    proof {
        let ms = memory_set;
        let base = k.frames.start_spec();
        assert forall|a: usize|
            !in_segment_data(img.segments@, img.segments@.len() as int, a) && ms.mapped(
                vpn_floor(a),
            ) implies #[trigger] byte_of(k.memory@, base, ms, a) == Some(0u8) by {
            ms.lemma_translate_owned(vpn_floor(a));
            let q = ms.translate_spec(vpn_floor(a))->0.ppn;
            assert(ms.owns(q));
            assert(all_zero(zeroed[q - base]@));
            assert(byte_of(zeroed, base, ms, a) == Some(0u8));
        }
        assert(holds_image_bytes(k.memory@, base, ms, *img));
    }
    let pid = k.next_pid;
    let child = TaskControlBlock {
        pid,
        status: TaskStatus::Ready,
        memory_set,
        trap_cx: TrapContext { a0: 0, sepc: img.entry_point, sp: img.user_stack_top },
        parent: Some(k.current.pid),
        exit_code: 0,
        syscall_times: zero_counts(),
        init_time: None,
        priority: DEFAULT_PRIORITY,
    };
    k.others.push(child);
    k.next_pid = k.next_pid + 1;
    proof {
        let before = old(k).others@;
        let now = k.others@;
        let n = before.len() as int;
        let c = now[n];
        assert(c.memory_set == child_ms);
        assert(now =~= before.push(c));
        assert forall|i: int| 0 <= i < n implies now[i] == before[i] by {}
        assert forall|i: int, q: usize| 0 <= i < now.len() implies !(
        #[trigger] now[i].memory_set.owns(q) && k.current.memory_set.owns(q)) by {
            if i < n {
                assert(now[i] == before[i]);
            }
        }
        assert forall|i: int, j: int, q: usize| 0 <= i < j < now.len() implies !(
        #[trigger] now[i].memory_set.owns(q) && #[trigger] now[j].memory_set.owns(q)) by {
            assert(now[i] == before[i]);
            if j < n {
                assert(now[j] == before[j]);
            }
        }
        assert forall|q: usize| #[trigger] k.frames.is_allocated(q) implies (
        k.current.memory_set.owns(q) || k.owned_by_other(q)) by {
            if !old(k).frames.is_allocated(q) {
                assert(now[n].memory_set.owns(q));
            } else if !old(k).current.memory_set.owns(q) {
                assert(old(k).owned_by_other(q));
                let i = choose|i: int|
                    0 <= i < before.len() && #[trigger] before[i].memory_set.owns(q);
                assert(now[i] == before[i]);
                assert(now[i].memory_set.owns(q));
            }
        }
    }
    pid as isize
}


/// Whether the task on the processor may read the byte at `va`: its page
/// is validly mapped with user and read access.
pub open spec fn byte_readable(k: Kernel, va: usize) -> bool {
    k.current.memory_set.translate_spec(vpn_floor(va)) matches Some(e) && e.valid && e.perm.u
        && e.perm.r
}

/// Whether the task on the processor may write the byte at `va`: its page
/// is validly mapped with user and write access.
pub open spec fn byte_writable(k: Kernel, va: usize) -> bool {
    k.current.memory_set.translate_spec(vpn_floor(va)) matches Some(e) && e.valid && e.perm.u
        && e.perm.w
}

/// Reads the byte at user address `va` through the address space of the
/// task on the processor; `None` if the task may not read it.
pub fn read_user_byte(k: &Kernel, va: usize) -> (r: Option<u8>)
    requires
        k.wf(),
    ensures
        byte_readable(*k, va) ==> r == k.byte_at(k.current.memory_set, va) && r is Some,
        !byte_readable(*k, va) ==> r is None,
{
    match k.current.memory_set.translate(floor_vpn(va)) {
        Some(e) => {
            if !(e.is_valid() && e.perm.u && e.perm.r) {
                return None;
            }
            proof {
                k.current.memory_set.lemma_translate_owned(vpn_floor(va));
                assert(k.frames.is_allocated(e.ppn));
            }
            Some(k.memory[e.ppn - k.frames.start()][va % PAGE_SIZE])
        },
        None => None,
    }
}

/// What a granted write of `b` to user address `va` does: the one byte
/// that `va` names in the frame behind its page changes to `b`; nothing
/// else in physical memory or in the kernel state changes.
pub open spec fn write_effect(pre: Kernel, post: Kernel, va: usize, b: u8) -> bool {
    let e = pre.current.memory_set.translate_spec(vpn_floor(va))->0;
    let at = e.ppn - pre.frames.start_spec();
    &&& post.frames == pre.frames
    &&& post.current == pre.current
    &&& post.others == pre.others
    &&& post.next_pid == pre.next_pid
    &&& post.memory@.len() == pre.memory@.len()
    &&& 0 <= at < pre.memory@.len()
    &&& post.memory@[at]@ == pre.memory@[at]@.update((va % PAGE_SIZE) as int, b)
    &&& forall|i: int| 0 <= i < pre.memory@.len() && i != at ==> post.memory@[i] == pre.memory@[i]
}

/// Writes `b` to user address `va` through the address space of the task
/// on the processor. Returns whether the task may write there; if not,
/// nothing changes.
pub fn write_user_byte(k: &mut Kernel, va: usize, b: u8) -> (r: bool)
    requires
        old(k).wf(),
    ensures
        final(k).wf(),
        r == byte_writable(*old(k), va),
        r ==> write_effect(*old(k), *final(k), va, b),
        !r ==> *final(k) == *old(k),
{
    match k.current.memory_set.translate(floor_vpn(va)) {
        Some(e) => {
            if !(e.is_valid() && e.perm.u && e.perm.w) {
                return false;
            }
            proof {
                k.current.memory_set.lemma_translate_owned(vpn_floor(va));
                assert(k.frames.is_allocated(e.ppn));
            }
            let at = e.ppn - k.frames.start();
            k.memory[at][va % PAGE_SIZE] = b;
            true
        },
        None => false,
    }
}


/// Whether the `n` bytes from user address `va` on are readable by the
/// task on the processor and none of them is zero.
pub open spec fn text_run(k: Kernel, va: usize, n: int) -> bool {
    &&& va + n <= usize::MAX + 1
    &&& forall|i: int|
        0 <= i < n ==> byte_readable(k, (va + i) as usize) && #[trigger] k.byte_at(
            k.current.memory_set,
            (va + i) as usize,
        ) != Some(0u8)
}

/// Reads the zero-terminated string at user address `va` byte by byte
/// through the address space of the task on the processor, across page
/// boundaries. Returns its bytes without the terminator, or `None` if a
/// byte that the task may not read, or the end of the address range,
/// comes before the terminator.
pub fn read_user_str(k: &Kernel, va: usize) -> (r: Option<Vec<u8>>)
    requires
        k.wf(),
    ensures
        r matches Some(s) ==> {
            &&& text_run(*k, va, s@.len() as int)
            &&& va + s@.len() <= usize::MAX
            &&& forall|i: int|
                0 <= i < s@.len() ==> k.byte_at(k.current.memory_set, (va + i) as usize) == Some(
                    #[trigger] s@[i],
                )
            &&& byte_readable(*k, (va + s@.len()) as usize)
            &&& k.byte_at(k.current.memory_set, (va + s@.len()) as usize) == Some(0u8)
        },
        r is None ==> exists|n: int|
            0 <= n && #[trigger] text_run(*k, va, n) && (va + n > usize::MAX || !byte_readable(
                *k,
                (va + n) as usize,
            )),
{
    let mut out: Vec<u8> = Vec::new();
    let mut at: usize = va;
    loop
        invariant
            k.wf(),
            at == va + out@.len(),
            text_run(*k, va, out@.len() as int),
            forall|i: int|
                0 <= i < out@.len() ==> k.byte_at(k.current.memory_set, (va + i) as usize) == Some(
                    #[trigger] out@[i],
                ),
        decreases usize::MAX - at,
    {
        match read_user_byte(k, at) {
            None => {
                assert(text_run(*k, va, out@.len() as int));
                return None;
            },
            Some(b) => {
                if b == 0 {
                    return Some(out);
                }
                if at == usize::MAX {
                    proof {
                        let n = out@.len() as int + 1;
                        assert(text_run(*k, va, n));
                    }
                    return None;
                }
                out.push(b);
                at = at + 1;
            },
        }
    }
}

} // verus!
