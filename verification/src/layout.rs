//! How records stand in user memory: little-endian fields at fixed
//! offsets.

use vstd::prelude::*;
use crate::config::MAX_SYSCALL_NUM;
use crate::syscall::{TaskInfo, TimeVal, TASK_INFO_BYTES, TIME_VAL_BYTES};
use crate::task::TaskStatus;

verus! {

/// `v` with its `i` low bytes dropped.
pub open spec fn shifted(v: int, i: int) -> int
    decreases i,
{
    if i <= 0 {
        v
    } else {
        shifted(v, i - 1) / 256
    }
}

/// Byte `i` of `v`, the lowest byte first.
pub open spec fn le_byte(v: int, i: int) -> u8 {
    (shifted(v, i) % 256) as u8
}

/// The `n` low bytes of `v`, the lowest first.
pub open spec fn le_seq(v: int, n: nat) -> Seq<u8> {
    Seq::new(n, |i: int| le_byte(v, i))
}

/// Appends the `n` low bytes of `v`, the lowest first.
pub fn push_le(out: &mut Vec<u8>, v: u64, n: usize)
    ensures
        final(out)@ == old(out)@ + le_seq(v as int, n as nat),
{
    let mut cur: u64 = v;
    let mut i: usize = 0;
    assert(out@ =~= old(out)@ + le_seq(v as int, 0));
    while i < n
        invariant
            i <= n,
            cur == shifted(v as int, i as int),
            out@ == old(out)@ + le_seq(v as int, i as nat),
        decreases n - i,
    {
        out.push((cur % 256) as u8);
        cur = cur / 256;
        i = i + 1;
        assert(out@ =~= old(out)@ + le_seq(v as int, i as nat));
    }
}

/// The 32-bit word that holds `x` in two's complement.
pub open spec fn i32_word(x: i32) -> int {
    if x >= 0 {
        x as int
    } else {
        x + 0x1_0000_0000
    }
}

/// An exit code in user memory: four bytes, two's complement, lowest
/// byte first.
pub open spec fn exit_code_bytes(x: i32) -> Seq<u8> {
    le_seq(i32_word(x), 4)
}

/// Lays out an exit code.
pub fn encode_exit_code(x: i32) -> (v: Vec<u8>)
    ensures
        v@ == exit_code_bytes(x),
        v@.len() == 4,
{
    let w: u64 = if x >= 0 {
        x as u64
    } else {
        (x as i64 + 0x1_0000_0000) as u64
    };
    let mut v: Vec<u8> = Vec::new();
    push_le(&mut v, w, 4);
    assert(v@ =~= exit_code_bytes(x));
    v
}

/// A time record in user memory: the seconds in bytes 0 to 7, the
/// microseconds in bytes 8 to 15, each lowest byte first.
pub open spec fn time_val_bytes(sec: usize, usec: usize) -> Seq<u8> {
    le_seq(sec as int, 8) + le_seq(usec as int, 8)
}

/// Lays out a time record.
pub fn encode_time_val(tv: &TimeVal) -> (v: Vec<u8>)
    ensures
        v@ == time_val_bytes(tv.sec, tv.usec),
        v@.len() == TIME_VAL_BYTES,
{
    let mut v: Vec<u8> = Vec::new();
    push_le(&mut v, tv.sec as u64, 8);
    push_le(&mut v, tv.usec as u64, 8);
    assert(v@ =~= time_val_bytes(tv.sec, tv.usec));
    v
}

/// The number that stands for a task status in user memory.
pub open spec fn status_code(s: TaskStatus) -> int {
    match s {
        TaskStatus::Ready => 0,
        TaskStatus::Running => 1,
        TaskStatus::Zombie => 2,
    }
}

/// The first `n` counters, four bytes each, lowest byte first.
pub open spec fn counts_bytes(counts: Seq<u32>, n: int) -> Seq<u8>
    decreases n,
{
    if n <= 0 {
        Seq::empty()
    } else {
        counts_bytes(counts, n - 1) + le_seq(counts[n - 1] as int, 4)
    }
}

/// A task record in user memory: the status in bytes 0 to 3, counter `i`
/// in the four bytes from `4 + 4 * i`, four zero bytes, and the running
/// time in the last eight bytes, each lowest byte first.
pub open spec fn task_info_bytes(status: TaskStatus, counts: Seq<u32>, time: usize) -> Seq<u8> {
    le_seq(status_code(status), 4) + counts_bytes(counts, MAX_SYSCALL_NUM as int) + le_seq(0, 4)
        + le_seq(time as int, 8)
}

/// Lays out a task record.
pub fn encode_task_info(info: &TaskInfo) -> (v: Vec<u8>)
    requires
        info.syscall_times@.len() == MAX_SYSCALL_NUM,
    ensures
        v@ == task_info_bytes(info.status, info.syscall_times@, info.time),
        v@.len() == TASK_INFO_BYTES,
{
    let code: u64 = match info.status {
        TaskStatus::Ready => 0,
        TaskStatus::Running => 1,
        TaskStatus::Zombie => 2,
    };
    let mut v: Vec<u8> = Vec::new();
    push_le(&mut v, code, 4);
    let ghost head = v@;
    assert(head =~= le_seq(status_code(info.status), 4));
    let mut i: usize = 0;
    assert(v@ =~= head + counts_bytes(info.syscall_times@, 0));
    while i < MAX_SYSCALL_NUM
        invariant
            i <= MAX_SYSCALL_NUM,
            info.syscall_times@.len() == MAX_SYSCALL_NUM,
            head.len() == 4,
            v@ == head + counts_bytes(info.syscall_times@, i as int),
            v@.len() == 4 + 4 * i,
        decreases MAX_SYSCALL_NUM - i,
    {
        push_le(&mut v, info.syscall_times[i] as u64, 4);
        i = i + 1;
        assert(v@ =~= head + counts_bytes(info.syscall_times@, i as int));
    }
    push_le(&mut v, 0, 4);
    push_le(&mut v, info.time as u64, 8);
    assert(v@ =~= task_info_bytes(info.status, info.syscall_times@, info.time));
    v
}


/// A time record takes 16 bytes: byte `i` of the seconds stands at offset
/// `i`, byte `i` of the microseconds at offset `8 + i`.
pub proof fn lemma_time_val_layout(sec: usize, usec: usize, i: int)
    requires
        0 <= i < 8,
    ensures
        time_val_bytes(sec, usec).len() == 16,
        time_val_bytes(sec, usec)[i] == le_byte(sec as int, i),
        time_val_bytes(sec, usec)[8 + i] == le_byte(usec as int, i),
{
}

/// The first `n` counters take `4 * n` bytes, and byte `j` of counter `i`
/// stands at offset `4 * i + j` among them.
pub proof fn lemma_counts_layout(counts: Seq<u32>, n: int, i: int, j: int)
    requires
        0 <= i < n,
        0 <= j < 4,
    ensures
        counts_bytes(counts, n).len() == 4 * n,
        counts_bytes(counts, n)[4 * i + j] == le_byte(counts[i] as int, j),
    decreases n,
{
    lemma_counts_len(counts, n - 1);
    if i < n - 1 {
        lemma_counts_layout(counts, n - 1, i, j);
    }
}

/// The first `n` counters take `4 * n` bytes.
pub proof fn lemma_counts_len(counts: Seq<u32>, n: int)
    requires
        0 <= n,
    ensures
        counts_bytes(counts, n).len() == 4 * n,
    decreases n,
{
    if n > 0 {
        lemma_counts_len(counts, n - 1);
    }
}

/// In a task record byte `j` of the status stands at offset `j`, byte `j`
/// of counter `i` at offset `4 + 4 * i + j`, and byte `j` of the running
/// time at offset `2008 + j`.
pub proof fn lemma_task_info_layout(
    status: TaskStatus,
    counts: Seq<u32>,
    time: usize,
    i: int,
    j: int,
)
    requires
        0 <= i < MAX_SYSCALL_NUM,
        0 <= j < 4,
    ensures
        task_info_bytes(status, counts, time).len() == TASK_INFO_BYTES,
        task_info_bytes(status, counts, time)[j] == le_byte(status_code(status), j),
        task_info_bytes(status, counts, time)[4 + 4 * i + j] == le_byte(counts[i] as int, j),
        task_info_bytes(status, counts, time)[2008 + j] == le_byte(time as int, j),
        task_info_bytes(status, counts, time)[2012 + j] == le_byte(time as int, 4 + j),
{
    lemma_counts_layout(counts, MAX_SYSCALL_NUM as int, i, j);
}


/// Four bytes, lowest first, give back the word they were taken from.
pub proof fn lemma_le_value_4(v: int)
    requires
        0 <= v < 0x1_0000_0000,
    ensures
        le_byte(v, 0) + 0x100 * le_byte(v, 1) + 0x1_0000 * le_byte(v, 2) + 0x100_0000 * le_byte(
            v,
            3,
        ) == v,
{
    reveal_with_fuel(shifted, 4);
}

/// Eight bytes, lowest first, give back the word they were taken from.
pub proof fn lemma_le_value_8(v: int)
    requires
        0 <= v < 0x1_0000_0000_0000_0000,
    ensures
        le_byte(v, 0) + 0x100 * le_byte(v, 1) + 0x1_0000 * le_byte(v, 2) + 0x100_0000 * le_byte(
            v,
            3,
        ) + 0x1_0000_0000 * (le_byte(v, 4) + 0x100 * le_byte(v, 5) + 0x1_0000 * le_byte(v, 6)
            + 0x100_0000 * le_byte(v, 7)) == v,
{
    reveal_with_fuel(shifted, 8);
    let hi = v / 0x1_0000_0000;
    let lo = v % 0x1_0000_0000;
    assert(shifted(v, 4) == hi);
    lemma_le_value_4(hi);
    assert(shifted(hi, 1) == shifted(v, 5));
    assert(shifted(hi, 2) == shifted(v, 6));
    assert(shifted(hi, 3) == shifted(v, 7));
}

} // verus!
