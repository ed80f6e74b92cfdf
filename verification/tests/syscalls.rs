use proc_core::config::{MAX_SYSCALL_NUM, PAGE_SIZE};
use proc_core::kernel::Kernel;
use proc_core::mm::MapPermission;
use proc_core::syscall::{
    check_user_writable, read_user_byte, record_syscall, wait_lookup, write_user_byte, sys_exit, sys_fork, sys_get_time, sys_getpid, sys_mmap,
    sys_munmap, sys_sbrk, sys_set_priority, sys_task_info, sys_waitpid, sys_yield,
};
use proc_core::task::TaskStatus;

const HEAP: usize = 0x4000_0000;

fn read_le(k: &Kernel, va: usize, n: usize) -> u64 {
    let mut v: u64 = 0;
    for i in (0..n).rev() {
        v = v * 256 + read_user_byte(k, va + i).unwrap() as u64;
    }
    v
}

fn read_i32(k: &Kernel, va: usize) -> i32 {
    read_le(k, va, 4) as u32 as i32
}

fn boot(frames: usize) -> Kernel {
    Kernel::new(0x80, 0x80 + frames, HEAP, 1000)
}

#[test]
fn root_task_has_pid_zero() {
    let k = boot(4);
    assert_eq!(sys_getpid(&k), 0);
    assert_eq!(k.frames.unused_count(), 4);
    assert_eq!(k.current.priority, 16);
}

#[test]
fn mmap_then_munmap_restores_the_address_space() {
    let mut k = boot(16);
    let start = 0x1000_0000usize;
    let len = 3 * PAGE_SIZE + 1;
    assert_eq!(sys_mmap(&mut k, start, len, 3), 0);
    assert_eq!(k.frames.unused_count(), 12);
    let first = start / PAGE_SIZE;
    for vpn in first..first + 4 {
        let e = k.current.memory_set.translate(vpn).unwrap();
        assert!(e.is_valid());
        assert_eq!(e.perm, MapPermission { r: true, w: true, x: false, u: true });
    }
    assert_eq!(k.current.memory_set.translate(first + 4), None);
    assert_eq!(sys_munmap(&mut k, start, len), 0);
    assert_eq!(k.frames.unused_count(), 16);
    for vpn in first..first + 4 {
        assert_eq!(k.current.memory_set.translate(vpn), None);
    }
}

#[test]
fn mmap_rejects_bad_ports() {
    let mut k = boot(16);
    assert_eq!(sys_mmap(&mut k, 0x1000_0000, PAGE_SIZE, 0), -1);
    assert_eq!(sys_mmap(&mut k, 0x1000_0000, PAGE_SIZE, 0x8), -1);
    assert_eq!(sys_mmap(&mut k, 0x1000_0000, PAGE_SIZE, 0x9), -1);
    assert_eq!(k.frames.unused_count(), 16);
    assert_eq!(k.current.memory_set.translate(0x1000_0000 / PAGE_SIZE), None);
}

#[test]
fn mmap_rejects_unaligned_start() {
    let mut k = boot(16);
    assert_eq!(sys_mmap(&mut k, 0x1000_0001, PAGE_SIZE, 1), -1);
    assert_eq!(k.frames.unused_count(), 16);
}

#[test]
fn mmap_rejects_a_range_that_touches_a_mapped_page() {
    let mut k = boot(16);
    let start = 0x1000_0000usize;
    assert_eq!(sys_mmap(&mut k, start + 2 * PAGE_SIZE, PAGE_SIZE, 1), 0);
    assert_eq!(k.frames.unused_count(), 15);
    assert_eq!(sys_mmap(&mut k, start, 3 * PAGE_SIZE, 3), -1);
    assert_eq!(k.frames.unused_count(), 15);
    let first = start / PAGE_SIZE;
    assert_eq!(k.current.memory_set.translate(first), None);
    assert_eq!(k.current.memory_set.translate(first + 1), None);
    let e = k.current.memory_set.translate(first + 2).unwrap();
    assert_eq!(e.perm, MapPermission { r: true, w: false, x: false, u: true });
}

#[test]
fn mmap_rejects_more_pages_than_free_frames() {
    let mut k = boot(2);
    assert_eq!(sys_mmap(&mut k, 0x1000_0000, 3 * PAGE_SIZE, 7), -1);
    assert_eq!(k.frames.unused_count(), 2);
    assert_eq!(sys_mmap(&mut k, 0x1000_0000, 2 * PAGE_SIZE, 7), 0);
    assert_eq!(k.frames.unused_count(), 0);
    let e = k.current.memory_set.translate(0x1000_0000 / PAGE_SIZE).unwrap();
    assert_eq!(e.perm, MapPermission { r: true, w: true, x: true, u: true });
}

#[test]
fn mmap_rejects_a_range_past_the_end_of_the_address_range() {
    let mut k = boot(2);
    let start = usize::MAX - (usize::MAX % PAGE_SIZE);
    assert_eq!(sys_mmap(&mut k, start, PAGE_SIZE, 1), -1);
    assert_eq!(k.frames.unused_count(), 2);
}

#[test]
fn munmap_needs_one_whole_area() {
    let mut k = boot(16);
    let start = 0x1000_0000usize;
    assert_eq!(sys_mmap(&mut k, start, 2 * PAGE_SIZE, 3), 0);
    assert_eq!(sys_mmap(&mut k, start + 2 * PAGE_SIZE, 2 * PAGE_SIZE, 3), 0);
    assert_eq!(k.frames.unused_count(), 12);
    assert_eq!(sys_munmap(&mut k, start, PAGE_SIZE), -1);
    assert_eq!(sys_munmap(&mut k, start, 4 * PAGE_SIZE), -1);
    assert_eq!(sys_munmap(&mut k, start + PAGE_SIZE, 2 * PAGE_SIZE), -1);
    assert_eq!(sys_munmap(&mut k, start + 1, 2 * PAGE_SIZE), -1);
    assert_eq!(sys_munmap(&mut k, start + 8 * PAGE_SIZE, PAGE_SIZE), -1);
    assert_eq!(k.frames.unused_count(), 12);
    assert_eq!(sys_munmap(&mut k, start + 2 * PAGE_SIZE, 2 * PAGE_SIZE), 0);
    assert_eq!(k.frames.unused_count(), 14);
    assert!(k.current.memory_set.translate(start / PAGE_SIZE).is_some());
    assert_eq!(k.current.memory_set.translate(start / PAGE_SIZE + 2), None);
}

#[test]
fn munmap_of_the_whole_heap_empties_it() {
    let mut k = boot(4);
    assert_eq!(sys_sbrk(&mut k, 2 * PAGE_SIZE as i32), HEAP as isize);
    assert_eq!(k.frames.unused_count(), 2);
    assert_eq!(sys_munmap(&mut k, HEAP, PAGE_SIZE), -1);
    assert_eq!(sys_munmap(&mut k, HEAP + PAGE_SIZE, PAGE_SIZE), -1);
    assert_eq!(k.frames.unused_count(), 2);
    assert_eq!(sys_munmap(&mut k, HEAP, 2 * PAGE_SIZE), 0);
    assert_eq!(k.frames.unused_count(), 4);
    assert_eq!(k.current.memory_set.program_brk, HEAP);
    assert_eq!(k.current.memory_set.translate(HEAP / PAGE_SIZE), None);
    assert_eq!(k.current.memory_set.translate(HEAP / PAGE_SIZE + 1), None);
    // the heap is still there and grows again
    assert_eq!(sys_sbrk(&mut k, 1), HEAP as isize);
    assert_eq!(k.frames.unused_count(), 3);
    assert!(k.current.memory_set.translate(HEAP / PAGE_SIZE).is_some());
}

#[test]
fn munmap_of_one_page_of_heap_after_sbrk() {
    let mut k = boot(4);
    assert_eq!(sys_sbrk(&mut k, PAGE_SIZE as i32), HEAP as isize);
    assert_eq!(sys_munmap(&mut k, HEAP, PAGE_SIZE), 0);
    assert_eq!(k.frames.unused_count(), 4);
    assert_eq!(k.current.memory_set.program_brk, HEAP);
}

#[test]
fn sbrk_returns_the_old_break() {
    let mut k = boot(4);
    assert_eq!(sys_sbrk(&mut k, 0), HEAP as isize);
    assert_eq!(sys_sbrk(&mut k, 100), HEAP as isize);
    assert_eq!(k.frames.unused_count(), 3);
    assert_eq!(sys_sbrk(&mut k, -50), (HEAP + 100) as isize);
    assert_eq!(k.current.memory_set.program_brk, HEAP + 50);
    assert_eq!(sys_sbrk(&mut k, -51), -1);
    assert_eq!(k.current.memory_set.program_brk, HEAP + 50);
    assert_eq!(sys_sbrk(&mut k, 5 * PAGE_SIZE as i32), -1);
    assert_eq!(k.frames.unused_count(), 3);
    assert_eq!(sys_sbrk(&mut k, -50), (HEAP + 50) as isize);
    assert_eq!(k.frames.unused_count(), 4);
}

#[test]
fn set_priority_has_a_floor_of_two() {
    let mut k = boot(1);
    assert_eq!(sys_set_priority(&mut k, 7), 7);
    assert_eq!(sys_set_priority(&mut k, 1), -1);
    assert_eq!(sys_set_priority(&mut k, 0), -1);
    assert_eq!(sys_set_priority(&mut k, -5), -1);
    assert_eq!(k.current.priority, 7);
    assert_eq!(sys_set_priority(&mut k, 10), 10);
    assert_eq!(k.current.priority, 10);
    assert_eq!(sys_set_priority(&mut k, 2), 2);
    assert_eq!(k.current.priority, 2);
}

#[test]
fn get_time_splits_microseconds() {
    let mut k = boot(4);
    let out = 0x1000_0000usize;
    assert_eq!(sys_get_time(&mut k, out, 0, 5_000_123), -1);
    assert_eq!(sys_mmap(&mut k, out, PAGE_SIZE, 3), 0);
    assert!(write_user_byte(&mut k, out + 16, 0xee));
    assert_eq!(sys_get_time(&mut k, out, 0, 5_000_123), 0);
    assert_eq!(read_le(&k, out, 8), 5);
    assert_eq!(read_le(&k, out + 8, 8), 123);
    assert_eq!(read_user_byte(&k, out + 16), Some(0xee));
    assert_eq!(sys_get_time(&mut k, out + PAGE_SIZE - 8, 0, 1), -1);
    assert_eq!(read_le(&k, out + PAGE_SIZE - 8, 8), 0);
}

#[test]
fn get_time_writes_a_record_that_straddles_two_pages() {
    let mut k = boot(4);
    let base = 0x1000_0000usize;
    assert_eq!(sys_mmap(&mut k, base + PAGE_SIZE, PAGE_SIZE, 3), 0);
    assert_eq!(sys_sbrk(&mut k, 1), HEAP as isize);
    assert_eq!(sys_mmap(&mut k, base, PAGE_SIZE, 3), 0);
    let ts = base + PAGE_SIZE - 8;
    assert_eq!(sys_get_time(&mut k, ts, 0, 0x0102_0304_0506), 0);
    let sec = 0x0102_0304_0506u64 / 1_000_000;
    let usec = 0x0102_0304_0506u64 % 1_000_000;
    assert_eq!(read_le(&k, ts, 8), sec);
    assert_eq!(read_le(&k, ts + 8, 8), usec);
    assert_eq!(read_user_byte(&k, ts), Some((sec % 256) as u8));
    assert_eq!(read_user_byte(&k, ts + 8), Some((usec % 256) as u8));
    assert_eq!(read_user_byte(&k, ts - 1), Some(0));
    assert_eq!(read_user_byte(&k, ts + 16), Some(0));
    assert_eq!(read_user_byte(&k, HEAP), Some(0));
}

#[test]
fn get_time_needs_a_writable_page() {
    let mut k = boot(4);
    let out = 0x1000_0000usize;
    assert_eq!(sys_mmap(&mut k, out, PAGE_SIZE, 1), 0);
    assert!(!check_user_writable(&k, out, 16));
    assert_eq!(sys_get_time(&mut k, out, 0, 9), -1);
    assert_eq!(read_le(&k, out, 8), 0);
}

#[test]
fn task_info_reports_counts_and_elapsed_time() {
    let mut k = boot(4);
    let out = 0x1000_0000usize + 3000;
    assert_eq!(sys_task_info(&mut k, out, 1500), -1);
    assert_eq!(sys_mmap(&mut k, 0x1000_0000, 2 * PAGE_SIZE, 3), 0);
    record_syscall(&mut k, 64);
    record_syscall(&mut k, 64);
    record_syscall(&mut k, 169);
    record_syscall(&mut k, MAX_SYSCALL_NUM);
    assert_eq!(sys_task_info(&mut k, out, 1500), 0);
    assert_eq!(read_le(&k, out, 4), 1);
    for i in 0..MAX_SYSCALL_NUM {
        let want = if i == 64 { 2 } else if i == 169 { 1 } else { 0 };
        assert_eq!(read_le(&k, out + 4 + 4 * i, 4), want);
    }
    assert_eq!(read_le(&k, out + 2004, 4), 0);
    assert_eq!(read_le(&k, out + 2008, 8), 500);
    assert_eq!(read_user_byte(&k, out + 2016), Some(0));
    assert_eq!(sys_task_info(&mut k, out, 1000), 0);
    assert_eq!(read_le(&k, out + 2008, 8), 0);
}

#[test]
fn fork_gives_the_child_its_own_frames() {
    let mut k = boot(8);
    let start = 0x1000_0000usize;
    assert_eq!(sys_mmap(&mut k, start, 2 * PAGE_SIZE, 3), 0);
    assert_eq!(sys_sbrk(&mut k, 1), HEAP as isize);
    record_syscall(&mut k, 3);
    k.current.trap_cx.a0 = 77;
    k.current.trap_cx.sepc = 0x1234;
    assert_eq!(sys_fork(&mut k), 1);
    assert_eq!(k.frames.unused_count(), 2);
    assert_eq!(k.others.len(), 1);
    let child = &k.others[0];
    assert_eq!(child.pid, 1);
    assert_eq!(child.parent, Some(0));
    assert_eq!(child.status, TaskStatus::Ready);
    assert_eq!(child.trap_cx.a0, 0);
    assert_eq!(child.trap_cx.sepc, 0x1234);
    assert_eq!(child.init_time, None);
    assert!(child.syscall_times.iter().all(|c| *c == 0));
    let pages = [start / PAGE_SIZE, start / PAGE_SIZE + 1, HEAP / PAGE_SIZE];
    for vpn in pages {
        let c = child.memory_set.translate(vpn).unwrap();
        let p = k.current.memory_set.translate(vpn).unwrap();
        assert_eq!(c.perm, p.perm);
        for other in pages {
            assert_ne!(c.ppn, k.current.memory_set.translate(other).unwrap().ppn);
        }
    }
    assert_eq!(sys_fork(&mut k), -1);
    assert_eq!(k.others.len(), 1);
    assert_eq!(k.frames.unused_count(), 2);
}

#[test]
fn waitpid_goes_from_retry_to_reaped_to_no_child() {
    let mut k = boot(8);
    assert_eq!(sys_waitpid(&mut k, -1, 0x1000_0010), -1);
    assert_eq!(sys_mmap(&mut k, 0x1000_0000, 2 * PAGE_SIZE, 3), 0);
    let child = sys_fork(&mut k);
    assert_eq!(child, 1);
    assert_eq!(k.frames.unused_count(), 4);
    assert_eq!(sys_waitpid(&mut k, -1, 0x1000_0010), -2);
    assert_eq!(sys_waitpid(&mut k, 1, 0x1000_0010), -2);
    assert_eq!(sys_waitpid(&mut k, 5, 0x1000_0010), -1);
    // the child runs and exits
    assert_eq!(sys_yield(&mut k, 2000), 0);
    assert_eq!(sys_getpid(&k), 1);
    assert_eq!(k.current.init_time, Some(2000));
    assert!(sys_exit(&mut k, 42, 3000));
    assert_eq!(sys_getpid(&k), 0);
    assert_eq!(k.current.init_time, Some(1000));
    assert_eq!(k.frames.unused_count(), 4);
    assert_eq!(sys_waitpid(&mut k, -1, 0x1000_0010), 1);
    assert_eq!(read_i32(&k, 0x1000_0010), 42);
    assert_eq!(k.frames.unused_count(), 6);
    assert_eq!(k.others.len(), 0);
    assert_eq!(sys_waitpid(&mut k, 1, 0x1000_0010), -1);
    assert_eq!(sys_waitpid(&mut k, -1, 0x1000_0010), -1);
}

#[test]
fn waitpid_reaps_only_the_selected_child() {
    let mut k = boot(8);
    assert_eq!(sys_sbrk(&mut k, 16), HEAP as isize);
    assert_eq!(sys_fork(&mut k), 1);
    assert_eq!(sys_fork(&mut k), 2);
    assert_eq!(sys_yield(&mut k, 1), 0);
    assert_eq!(sys_getpid(&k), 1);
    assert!(sys_exit(&mut k, -3, 2));
    assert_eq!(sys_getpid(&k), 2);
    assert_eq!(sys_yield(&mut k, 3), 0);
    assert_eq!(sys_getpid(&k), 0);
    assert_eq!(sys_waitpid(&mut k, 2, HEAP + 4), -2);
    assert_eq!(sys_waitpid(&mut k, 1, HEAP + 4), 1);
    assert_eq!(read_i32(&k, HEAP + 4), -3);
    assert_eq!(sys_waitpid(&mut k, 1, HEAP + 4), -1);
    assert_eq!(sys_waitpid(&mut k, -1, HEAP + 4), -2);
}

#[test]
fn yield_runs_ready_tasks_in_turn() {
    let mut k = boot(8);
    assert_eq!(sys_yield(&mut k, 5), 0);
    assert_eq!(sys_getpid(&k), 0);
    assert_eq!(k.current.status, TaskStatus::Running);
    assert_eq!(sys_fork(&mut k), 1);
    assert_eq!(sys_fork(&mut k), 2);
    let mut seen = Vec::new();
    for t in 0..6 {
        assert_eq!(sys_yield(&mut k, 10 + t), 0);
        seen.push(sys_getpid(&k));
    }
    assert_eq!(seen, vec![1, 2, 0, 1, 2, 0]);
}

#[test]
fn exit_of_the_last_task_leaves_the_processor_idle() {
    let mut k = boot(2);
    assert!(!sys_exit(&mut k, 9, 0));
    assert_eq!(k.current.status, TaskStatus::Zombie);
    assert_eq!(k.current.exit_code, 9);
}

#[test]
fn frames_are_conserved_over_a_mixed_run() {
    let mut k = boot(32);
    let base = 0x1000_0000usize;
    assert_eq!(sys_mmap(&mut k, base, 4 * PAGE_SIZE, 3), 0);
    assert_eq!(sys_sbrk(&mut k, 2 * PAGE_SIZE as i32), HEAP as isize);
    assert_eq!(k.frames.unused_count(), 26);
    assert_eq!(sys_fork(&mut k), 1);
    assert_eq!(k.frames.unused_count(), 20);
    assert_eq!(sys_munmap(&mut k, base, 4 * PAGE_SIZE), 0);
    assert_eq!(k.frames.unused_count(), 24);
    assert_eq!(sys_yield(&mut k, 1), 0);
    assert_eq!(sys_mmap(&mut k, base + 8 * PAGE_SIZE, PAGE_SIZE, 1), 0);
    assert_eq!(k.frames.unused_count(), 23);
    assert!(sys_exit(&mut k, 0, 2));
    assert_eq!(k.frames.unused_count(), 23);
    assert_eq!(sys_waitpid(&mut k, -1, HEAP), 1);
    assert_eq!(read_i32(&k, HEAP), 0);
    assert_eq!(k.frames.unused_count(), 30);
    assert_eq!(sys_sbrk(&mut k, -2 * PAGE_SIZE as i32), (HEAP + 2 * PAGE_SIZE) as isize);
    assert_eq!(k.frames.unused_count(), 32);
}

#[test]
fn waitpid_stores_the_exit_code_in_the_callers_memory_only() {
    let mut k = boot(8);
    let base = 0x1000_0000usize;
    assert_eq!(sys_mmap(&mut k, base, 2 * PAGE_SIZE, 3), 0);
    let out = base + PAGE_SIZE - 2;
    assert!(write_user_byte(&mut k, out - 1, 0x77));
    assert!(write_user_byte(&mut k, out + 4, 0x88));
    assert_eq!(sys_fork(&mut k), 1);
    assert_eq!(sys_fork(&mut k), 2);
    assert_eq!(wait_lookup(&k, -1).0, -2);
    assert_eq!(sys_yield(&mut k, 1), 0);
    assert!(sys_exit(&mut k, -2, 2));
    assert_eq!(sys_getpid(&k), 2);
    assert_eq!(sys_yield(&mut k, 3), 0);
    assert_eq!(sys_getpid(&k), 0);
    assert_eq!(wait_lookup(&k, -1), (1, 0));
    assert_eq!(sys_waitpid(&mut k, -1, out), 1);
    assert_eq!(read_i32(&k, out), -2);
    assert_eq!(read_user_byte(&k, out), Some(0xfe));
    assert_eq!(read_user_byte(&k, out + 3), Some(0xff));
    assert_eq!(read_user_byte(&k, out - 1), Some(0x77));
    assert_eq!(read_user_byte(&k, out + 4), Some(0x88));
    // the other child's copy of the page is untouched
    assert_eq!(sys_yield(&mut k, 4), 0);
    assert_eq!(sys_getpid(&k), 2);
    assert_eq!(read_user_byte(&k, out), Some(0));
    assert_eq!(read_user_byte(&k, out - 1), Some(0x77));
}
