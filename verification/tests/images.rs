use proc_core::config::PAGE_SIZE;
use proc_core::image::{check_plan, image_plan, LoadedImage, Region, Segment, USER_STACK_SIZE};
use proc_core::kernel::Kernel;
use proc_core::mm::MapPermission;
use proc_core::syscall::{
    read_user_byte, sys_exec, sys_exit, sys_getpid, sys_mmap, sys_spawn, sys_waitpid, sys_yield,
    write_user_byte,
};
use proc_core::task::TaskStatus;

const RX: MapPermission = MapPermission { r: true, w: false, x: true, u: false };
const RW: MapPermission = MapPermission { r: true, w: true, x: false, u: false };

fn small_image() -> LoadedImage {
    LoadedImage {
        segments: vec![
            Segment { start_va: 0x1_0000, end_va: 0x1_1800, perm: RX, data: vec![0x13, 0x05, 0xa0, 0x02] },
            Segment { start_va: 0x1_2000, end_va: 0x1_2010, perm: RW, data: vec![7; 16] },
        ],
        entry_point: 0x1_0040,
        user_stack_top: 0x1_6000,
    }
}

#[test]
fn image_plan_lists_segments_stack_and_trap_page() {
    let plan = image_plan(&small_image()).unwrap();
    assert_eq!(plan.len(), 4);
    assert_eq!(
        plan[0],
        Region {
            start_vpn: 0x10,
            end_vpn: 0x12,
            perm: MapPermission { r: true, w: false, x: true, u: true }
        }
    );
    assert_eq!(
        plan[1],
        Region {
            start_vpn: 0x12,
            end_vpn: 0x13,
            perm: MapPermission { r: true, w: true, x: false, u: true }
        }
    );
    assert_eq!(
        plan[2],
        Region {
            start_vpn: 0x14,
            end_vpn: 0x16,
            perm: MapPermission { r: true, w: true, x: false, u: true }
        }
    );
    let t = usize::MAX / PAGE_SIZE - 1;
    assert_eq!(
        plan[3],
        Region {
            start_vpn: t,
            end_vpn: t + 1,
            perm: MapPermission { r: true, w: true, x: false, u: false }
        }
    );
    assert!(check_plan(&plan, 6));
    assert!(!check_plan(&plan, 5));
}

#[test]
fn image_plan_rejects_a_misplaced_stack_or_a_reversed_segment() {
    let mut img = small_image();
    img.user_stack_top = 0x1_6001;
    assert!(image_plan(&img).is_none());
    img.user_stack_top = USER_STACK_SIZE - PAGE_SIZE;
    assert!(image_plan(&img).is_none());
    let mut img = small_image();
    img.segments[1] = Segment { start_va: 0x1_2010, end_va: 0x1_2000, perm: RW, data: Vec::new() };
    assert!(image_plan(&img).is_none());
    let mut img = small_image();
    img.segments[1] = Segment { start_va: 0x1_2000, end_va: 0x1_2010, perm: RW, data: vec![1; 17] };
    assert!(image_plan(&img).is_none());
}

#[test]
fn check_plan_rejects_shared_pages() {
    let a = Region { start_vpn: 4, end_vpn: 8, perm: RW };
    let b = Region { start_vpn: 7, end_vpn: 9, perm: RW };
    let c = Region { start_vpn: 8, end_vpn: 9, perm: RW };
    let empty = Region { start_vpn: 5, end_vpn: 5, perm: RW };
    assert!(!check_plan(&vec![a, b], 100));
    assert!(!check_plan(&vec![b, a], 100));
    assert!(check_plan(&vec![a, c], 5));
    assert!(!check_plan(&vec![a, c], 4));
    assert!(check_plan(&vec![a, empty], 4));
    assert!(!check_plan(&vec![Region { start_vpn: 3, end_vpn: 2, perm: RW }], 100));
    assert!(check_plan(&Vec::new(), 0));
}

#[test]
fn exec_replaces_the_address_space_in_place() {
    let mut k = Kernel::new(0, 16, 0x4000_0000, 0);
    assert_eq!(sys_mmap(&mut k, 0x1000_0000, 3 * PAGE_SIZE, 3), 0);
    assert_eq!(k.frames.unused_count(), 13);
    assert_eq!(sys_exec(&mut k, None), -1);
    assert_eq!(k.frames.unused_count(), 13);
    let img = small_image();
    assert_eq!(sys_exec(&mut k, Some(&img)), 0);
    assert_eq!(sys_getpid(&k), 0);
    assert_eq!(k.frames.unused_count(), 10);
    assert_eq!(k.current.trap_cx.sepc, 0x1_0040);
    assert_eq!(k.current.trap_cx.sp, 0x1_6000);
    assert_eq!(k.current.memory_set.program_brk, 0x1_6000);
    assert_eq!(k.current.memory_set.translate(0x1000_0000 / PAGE_SIZE), None);
    let code = k.current.memory_set.translate(0x10).unwrap();
    assert_eq!(code.perm, MapPermission { r: true, w: false, x: true, u: true });
    assert_eq!(k.current.memory_set.translate(0x13), None);
    let stack = k.current.memory_set.translate(0x15).unwrap();
    assert_eq!(stack.perm, MapPermission { r: true, w: true, x: false, u: true });
    let trap = k.current.memory_set.translate(usize::MAX / PAGE_SIZE - 1).unwrap();
    assert_eq!(trap.perm, MapPermission { r: true, w: true, x: false, u: false });
}

#[test]
fn exec_fails_without_frames_and_changes_nothing() {
    let mut k = Kernel::new(0, 8, 0x4000_0000, 0);
    assert_eq!(sys_mmap(&mut k, 0x1000_0000, 3 * PAGE_SIZE, 3), 0);
    assert_eq!(k.frames.unused_count(), 5);
    let img = small_image();
    assert_eq!(sys_exec(&mut k, Some(&img)), -1);
    assert_eq!(k.frames.unused_count(), 5);
    assert!(k.current.memory_set.translate(0x1000_0000 / PAGE_SIZE).is_some());
    assert_eq!(k.current.memory_set.translate(0x10), None);
}

#[test]
fn exec_fails_on_overlapping_segments() {
    let mut k = Kernel::new(0, 32, 0x4000_0000, 0);
    let mut img = small_image();
    img.segments[1] = Segment { start_va: 0x1_1000, end_va: 0x1_2010, perm: RW, data: Vec::new() };
    assert_eq!(sys_exec(&mut k, Some(&img)), -1);
    assert_eq!(k.frames.unused_count(), 32);
}

#[test]
fn spawn_creates_a_ready_child_running_the_image() {
    let mut k = Kernel::new(0, 16, 0x4000_0000, 0);
    assert_eq!(sys_mmap(&mut k, 0x1000_0000, 3 * PAGE_SIZE, 3), 0);
    assert_eq!(sys_spawn(&mut k, None), -1);
    assert_eq!(k.others.len(), 0);
    let img = small_image();
    assert_eq!(sys_spawn(&mut k, Some(&img)), 1);
    assert_eq!(k.frames.unused_count(), 7);
    assert_eq!(k.others.len(), 1);
    {
        let child = &k.others[0];
        assert_eq!(child.pid, 1);
        assert_eq!(child.parent, Some(0));
        assert_eq!(child.status, TaskStatus::Ready);
        assert_eq!(child.trap_cx.sepc, 0x1_0040);
        assert_eq!(child.trap_cx.a0, 0);
        assert_eq!(child.memory_set.translate(0x1000_0000 / PAGE_SIZE), None);
        assert!(child.memory_set.translate(0x10).is_some());
    }
    assert!(k.current.memory_set.translate(0x1000_0000 / PAGE_SIZE).is_some());
    assert_eq!(k.current.memory_set.translate(0x10), None);
    assert_eq!(sys_spawn(&mut k, Some(&img)), 2);
    assert_eq!(k.frames.unused_count(), 1);
    assert_eq!(sys_spawn(&mut k, Some(&img)), -1);
    assert_eq!(k.others.len(), 2);
    assert_eq!(sys_yield(&mut k, 1), 0);
    assert_eq!(sys_getpid(&k), 1);
    assert!(sys_exit(&mut k, 5, 2));
    assert_eq!(sys_getpid(&k), 2);
    assert_eq!(sys_yield(&mut k, 3), 0);
    assert_eq!(sys_getpid(&k), 0);
    assert_eq!(sys_waitpid(&mut k, -1, 0x1000_0000), 1);
    assert_eq!(read_user_byte(&k, 0x1000_0000), Some(5));
    assert_eq!(read_user_byte(&k, 0x1000_0001), Some(0));
    assert_eq!(k.frames.unused_count(), 7);
}

#[test]
fn exec_puts_the_segment_bytes_in_place() {
    let mut k = Kernel::new(0, 16, 0x4000_0000, 0);
    let mut img = small_image();
    img.segments[0] = Segment {
        start_va: 0x1_0ffe,
        end_va: 0x1_1800,
        perm: RX,
        data: vec![1, 2, 3, 4],
    };
    assert_eq!(sys_exec(&mut k, Some(&img)), 0);
    assert_eq!(read_user_byte(&k, 0x1_0ffd), Some(0));
    assert_eq!(read_user_byte(&k, 0x1_0ffe), Some(1));
    assert_eq!(read_user_byte(&k, 0x1_0fff), Some(2));
    assert_eq!(read_user_byte(&k, 0x1_1000), Some(3));
    assert_eq!(read_user_byte(&k, 0x1_1001), Some(4));
    assert_eq!(read_user_byte(&k, 0x1_1002), Some(0));
    assert_eq!(read_user_byte(&k, 0x1_2000), Some(7));
    assert_eq!(read_user_byte(&k, 0x1_200f), Some(7));
    assert_eq!(read_user_byte(&k, 0x1_2010), Some(0));
    assert!(!write_user_byte(&mut k, 0x1_1000, 9));
    assert!(write_user_byte(&mut k, 0x1_2000, 9));
    assert_eq!(read_user_byte(&k, 0x1_2000), Some(9));
}

#[test]
fn spawn_loads_the_image_for_the_child_only() {
    let mut k = Kernel::new(0, 16, 0x4000_0000, 0);
    let img = small_image();
    assert_eq!(sys_spawn(&mut k, Some(&img)), 1);
    assert_eq!(read_user_byte(&k, 0x1_0000), None);
    assert_eq!(sys_yield(&mut k, 1), 0);
    assert_eq!(sys_getpid(&k), 1);
    assert_eq!(read_user_byte(&k, 0x1_0000), Some(0x13));
    assert_eq!(read_user_byte(&k, 0x1_0003), Some(0x02));
    assert_eq!(read_user_byte(&k, 0x1_0004), Some(0));
}

#[test]
fn image_plan_keeps_the_guard_page_free() {
    let mut img = small_image();
    img.user_stack_top = USER_STACK_SIZE;
    assert!(image_plan(&img).is_none());
    let mut img = small_image();
    img.segments[1] = Segment { start_va: 0x1_2000, end_va: 0x1_3001, perm: RW, data: Vec::new() };
    assert!(image_plan(&img).is_none());
    let mut img = small_image();
    img.segments[1] = Segment { start_va: 0x1_2000, end_va: 0x1_3000, perm: RW, data: Vec::new() };
    assert!(image_plan(&img).is_some());
    let mut k = Kernel::new(0, 16, 0x4000_0000, 0);
    assert_eq!(sys_exec(&mut k, Some(&img)), 0);
    assert_eq!(k.current.memory_set.translate(0x13), None);
    assert!(k.current.memory_set.translate(0x14).is_some());
}
