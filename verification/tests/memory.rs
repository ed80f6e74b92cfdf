use proc_core::config::PAGE_SIZE;
use proc_core::kernel::Kernel;
use proc_core::syscall::{
    read_user_byte, read_user_str, sys_exit, sys_fork, sys_getpid, sys_mmap, sys_munmap, sys_sbrk, sys_yield,
    write_user_byte,
};

const HEAP: usize = 0x4000_0000;

#[test]
fn fresh_pages_read_as_zero_and_keep_what_is_written() {
    let mut k = Kernel::new(0, 8, HEAP, 0);
    let base = 0x1000_0000usize;
    assert_eq!(read_user_byte(&k, base), None);
    assert!(!write_user_byte(&mut k, base, 1));
    assert_eq!(sys_mmap(&mut k, base, 2 * PAGE_SIZE, 3), 0);
    assert_eq!(read_user_byte(&k, base), Some(0));
    assert_eq!(read_user_byte(&k, base + 2 * PAGE_SIZE - 1), Some(0));
    assert_eq!(read_user_byte(&k, base + 2 * PAGE_SIZE), None);
    assert!(write_user_byte(&mut k, base + 5, 0xab));
    assert!(write_user_byte(&mut k, base + PAGE_SIZE + 5, 0xcd));
    assert_eq!(read_user_byte(&k, base + 5), Some(0xab));
    assert_eq!(read_user_byte(&k, base + 4), Some(0));
    assert_eq!(read_user_byte(&k, base + PAGE_SIZE + 5), Some(0xcd));
}

#[test]
fn access_rights_decide_reads_and_writes() {
    let mut k = Kernel::new(0, 8, HEAP, 0);
    let base = 0x1000_0000usize;
    assert_eq!(sys_mmap(&mut k, base, PAGE_SIZE, 1), 0);
    assert_eq!(sys_mmap(&mut k, base + PAGE_SIZE, PAGE_SIZE, 2), 0);
    assert_eq!(read_user_byte(&k, base), Some(0));
    assert!(!write_user_byte(&mut k, base, 7));
    assert!(write_user_byte(&mut k, base + PAGE_SIZE, 7));
    assert_eq!(read_user_byte(&k, base + PAGE_SIZE), None);
}

#[test]
fn a_reused_frame_comes_back_zeroed() {
    let mut k = Kernel::new(0, 1, HEAP, 0);
    let base = 0x1000_0000usize;
    assert_eq!(sys_mmap(&mut k, base, PAGE_SIZE, 3), 0);
    assert!(write_user_byte(&mut k, base + 9, 0x55));
    assert_eq!(sys_munmap(&mut k, base, PAGE_SIZE), 0);
    assert_eq!(sys_mmap(&mut k, base + 4 * PAGE_SIZE, PAGE_SIZE, 3), 0);
    assert_eq!(read_user_byte(&k, base + 4 * PAGE_SIZE + 9), Some(0));
    assert_eq!(sys_munmap(&mut k, base + 4 * PAGE_SIZE, PAGE_SIZE), 0);
    assert_eq!(sys_sbrk(&mut k, 16), HEAP as isize);
    assert_eq!(read_user_byte(&k, HEAP + 9), Some(0));
}

#[test]
fn fork_copies_bytes_and_then_keeps_parent_and_child_apart() {
    let mut k = Kernel::new(0, 8, HEAP, 0);
    assert_eq!(sys_sbrk(&mut k, 64), HEAP as isize);
    assert!(write_user_byte(&mut k, HEAP + 3, 11));
    assert_eq!(sys_fork(&mut k), 1);
    // the parent writes after the fork
    assert!(write_user_byte(&mut k, HEAP + 3, 22));
    assert!(write_user_byte(&mut k, HEAP + 4, 33));
    assert_eq!(sys_yield(&mut k, 1), 0);
    assert_eq!(sys_getpid(&k), 1);
    // the child still sees what was there at the fork
    assert_eq!(read_user_byte(&k, HEAP + 3), Some(11));
    assert_eq!(read_user_byte(&k, HEAP + 4), Some(0));
    assert!(write_user_byte(&mut k, HEAP + 3, 44));
    assert!(sys_exit(&mut k, 0, 2));
    assert_eq!(sys_getpid(&k), 0);
    assert_eq!(read_user_byte(&k, HEAP + 3), Some(22));
    assert_eq!(read_user_byte(&k, HEAP + 4), Some(33));
}

#[test]
fn strings_are_read_across_pages_up_to_the_terminator() {
    let mut k = Kernel::new(0, 8, HEAP, 0);
    let base = 0x1000_0000usize;
    assert_eq!(sys_mmap(&mut k, base, 2 * PAGE_SIZE, 3), 0);
    let at = base + PAGE_SIZE - 3;
    for (i, b) in b"hello".iter().enumerate() {
        assert!(write_user_byte(&mut k, at + i, *b));
    }
    assert_eq!(read_user_str(&k, at), Some(b"hello".to_vec()));
    assert_eq!(read_user_str(&k, at + 5), Some(Vec::new()));
    assert_eq!(read_user_str(&k, at + 2), Some(b"llo".to_vec()));
    assert_eq!(read_user_str(&k, base - 1), None);
}

#[test]
fn a_string_that_runs_off_its_mapping_is_not_read() {
    let mut k = Kernel::new(0, 8, HEAP, 0);
    let base = 0x1000_0000usize;
    assert_eq!(sys_mmap(&mut k, base, PAGE_SIZE, 3), 0);
    for i in 0..4 {
        assert!(write_user_byte(&mut k, base + PAGE_SIZE - 4 + i, b'x'));
    }
    assert_eq!(read_user_str(&k, base + PAGE_SIZE - 4), None);
    assert_eq!(read_user_str(&k, base + PAGE_SIZE - 1), None);
    assert_eq!(read_user_str(&k, base + PAGE_SIZE - 5), Some(Vec::new()));
    assert_eq!(read_user_str(&k, base), Some(Vec::new()));
}
