use proc_core::frame::FrameAllocator;
use proc_core::mm::{ceil_vpn, floor_vpn, page_aligned, MapPermission, MemorySet};

#[test]
fn fresh_pool_hands_out_frames_in_increasing_order() {
    let mut fa = FrameAllocator::new(10, 14);
    assert_eq!(fa.unused_count(), 4);
    assert_eq!(fa.allocate(), Some(10));
    assert_eq!(fa.allocate(), Some(11));
    assert_eq!(fa.allocate(), Some(12));
    assert_eq!(fa.allocate(), Some(13));
    assert_eq!(fa.unused_count(), 0);
    assert_eq!(fa.allocate(), None);
    assert_eq!(fa.unused_count(), 0);
}

#[test]
fn released_frame_is_handed_out_next() {
    let mut fa = FrameAllocator::new(0, 8);
    let a = fa.allocate().unwrap();
    let b = fa.allocate().unwrap();
    assert_ne!(a, b);
    assert_eq!(fa.unused_count(), 6);
    fa.deallocate(a);
    assert_eq!(fa.unused_count(), 7);
    assert_eq!(fa.allocate(), Some(a));
    assert_eq!(fa.unused_count(), 6);
}

#[test]
fn empty_pool_is_exhausted_at_once() {
    let mut fa = FrameAllocator::new(5, 5);
    assert_eq!(fa.unused_count(), 0);
    assert_eq!(fa.allocate(), None);
}

#[test]
fn frame_count_follows_allocations_and_releases() {
    let mut fa = FrameAllocator::new(100, 200);
    let mut held = Vec::new();
    for _ in 0..30 {
        held.push(fa.allocate().unwrap());
    }
    assert_eq!(fa.unused_count(), 70);
    for i in 0..held.len() {
        for j in 0..i {
            assert_ne!(held[i], held[j]);
        }
    }
    for p in held.drain(..10) {
        fa.deallocate(p);
    }
    assert_eq!(fa.unused_count(), 80);
}

#[test]
fn page_rounding() {
    assert_eq!(floor_vpn(0), 0);
    assert_eq!(floor_vpn(4095), 0);
    assert_eq!(floor_vpn(4096), 1);
    assert_eq!(ceil_vpn(0), 0);
    assert_eq!(ceil_vpn(1), 1);
    assert_eq!(ceil_vpn(4096), 1);
    assert_eq!(ceil_vpn(4097), 2);
    assert!(page_aligned(8192));
    assert!(!page_aligned(8193));
}

#[test]
fn framed_area_maps_each_page_with_user_access() {
    let mut fa = FrameAllocator::new(0, 16);
    let mut ms = MemorySet::new(0x10_0000);
    let perm = MapPermission { r: true, w: false, x: true, u: false };
    ms.insert_framed_area(0x2000, 0x4001, perm, &mut fa);
    assert_eq!(fa.unused_count(), 13);
    assert_eq!(ms.translate(1), None);
    for vpn in 2..5 {
        let e = ms.translate(vpn).unwrap();
        assert!(e.is_valid());
        assert_eq!(e.perm, MapPermission { r: true, w: false, x: true, u: true });
    }
    assert_eq!(ms.translate(5), None);
    let a = ms.translate(2).unwrap().ppn;
    let b = ms.translate(3).unwrap().ppn;
    let c = ms.translate(4).unwrap().ppn;
    assert!(a != b && b != c && a != c);
    assert!(ms.range_mapped(2, 5));
    assert!(!ms.range_mapped(2, 6));
    assert!(ms.range_unmapped(5, 9));
    assert!(!ms.range_unmapped(4, 9));
}

#[test]
fn remove_area_needs_the_exact_range() {
    let mut fa = FrameAllocator::new(0, 16);
    let mut ms = MemorySet::new(0x10_0000);
    let perm = MapPermission { r: true, w: true, x: false, u: true };
    ms.insert_framed_area(0x2000, 0x5000, perm, &mut fa);
    assert_eq!(fa.unused_count(), 13);
    assert!(!ms.remove_area_with_start_vpn(2, 4, &mut fa));
    assert!(!ms.remove_area_with_start_vpn(3, 5, &mut fa));
    assert_eq!(fa.unused_count(), 13);
    assert!(ms.translate(2).is_some());
    assert!(ms.remove_area_with_start_vpn(2, 5, &mut fa));
    assert_eq!(fa.unused_count(), 16);
    assert_eq!(ms.translate(2), None);
    assert_eq!(ms.translate(4), None);
}

#[test]
fn heap_grows_and_shrinks_by_pages() {
    let mut fa = FrameAllocator::new(0, 4);
    let mut ms = MemorySet::new(0x8000);
    assert_eq!(ms.adjust_heap(1, &mut fa), Some(0x8001));
    assert_eq!(fa.unused_count(), 3);
    assert!(ms.translate(8).is_some());
    assert_eq!(ms.adjust_heap(4095, &mut fa), Some(0x9000));
    assert_eq!(fa.unused_count(), 3);
    assert_eq!(ms.adjust_heap(1, &mut fa), Some(0x9001));
    assert_eq!(fa.unused_count(), 2);
    assert_eq!(ms.adjust_heap(3 * 4096, &mut fa), None);
    assert_eq!(fa.unused_count(), 2);
    assert_eq!(ms.program_brk, 0x9001);
    assert_eq!(ms.adjust_heap(-0x1002, &mut fa), None);
    assert_eq!(ms.adjust_heap(-0x1001, &mut fa), Some(0x8000));
    assert_eq!(fa.unused_count(), 4);
    assert_eq!(ms.translate(8), None);
}

#[test]
fn heap_growth_stops_at_a_mapped_page() {
    let mut fa = FrameAllocator::new(0, 8);
    let mut ms = MemorySet::new(0x8000);
    let perm = MapPermission { r: true, w: true, x: false, u: true };
    ms.insert_framed_area(0x9000, 0xa000, perm, &mut fa);
    assert_eq!(ms.adjust_heap(0x1000, &mut fa), Some(0x9000));
    assert_eq!(ms.adjust_heap(1, &mut fa), None);
    assert_eq!(fa.unused_count(), 6);
}

#[test]
fn fork_copy_uses_frames_of_its_own() {
    let mut fa = FrameAllocator::new(0, 8);
    let mut ms = MemorySet::new(0x8000);
    let perm = MapPermission { r: true, w: true, x: false, u: true };
    ms.insert_framed_area(0x1000, 0x3000, perm, &mut fa);
    assert_eq!(ms.adjust_heap(10, &mut fa), Some(0x800a));
    assert_eq!(ms.page_total(), Some(3));
    let child = ms.fork_copy(&mut fa);
    assert_eq!(fa.unused_count(), 2);
    assert_eq!(child.program_brk, 0x800a);
    for vpn in [1usize, 2, 8] {
        let a = ms.translate(vpn).unwrap();
        let b = child.translate(vpn).unwrap();
        assert_eq!(a.perm, b.perm);
        for other in [1usize, 2, 8] {
            assert_ne!(b.ppn, ms.translate(other).unwrap().ppn);
        }
    }
    assert_eq!(child.translate(3), None);
    child.destroy(&mut fa);
    assert_eq!(fa.unused_count(), 5);
    ms.destroy(&mut fa);
    assert_eq!(fa.unused_count(), 8);
}
