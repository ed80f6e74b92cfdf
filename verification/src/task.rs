//! Task control blocks.

use vstd::prelude::*;
use crate::config::MAX_SYSCALL_NUM;
use crate::mm::MemorySet;

verus! {

/// Where a task stands in its life cycle.
#[derive(Clone, Copy, PartialEq, Eq, Structural, Debug)]
pub enum TaskStatus {
    Ready,
    Running,
    Zombie,
}

/// The part of the saved user context that this core reads or writes.
#[derive(Clone, Copy, PartialEq, Eq, Structural, Debug)]
pub struct TrapContext {
    /// Saved return-value register.
    pub a0: usize,
    /// Address at which user code resumes.
    pub sepc: usize,
    /// User stack pointer.
    pub sp: usize,
}

/// Priority given to a task that never asked for one.
pub const DEFAULT_PRIORITY: isize = 16;

/// Descriptor of one process.
pub struct TaskControlBlock {
    pub pid: usize,
    pub status: TaskStatus,
    pub memory_set: MemorySet,
    pub trap_cx: TrapContext,
    /// Pid of the task that created this one, if any.
    pub parent: Option<usize>,
    pub exit_code: i32,
    /// Invocation count for each system-call number.
    pub syscall_times: Vec<u32>,
    /// Clock reading, in milliseconds, at the first dispatch.
    pub init_time: Option<usize>,
    pub priority: isize,
}

impl TaskControlBlock {
    /// The address space is well formed, every system-call number has a
    /// counter, and the priority respects its floor.
    pub open spec fn wf(&self) -> bool {
        &&& self.memory_set.wf()
        &&& self.syscall_times@.len() == MAX_SYSCALL_NUM
        &&& self.priority >= 2
    }

    /// The task after a dispatch at clock reading `now_ms`: running, with
    /// the time of its first dispatch recorded.
    pub open spec fn dispatched(self, now_ms: usize) -> TaskControlBlock {
        TaskControlBlock {
            status: TaskStatus::Running,
            init_time: if self.init_time is Some {
                self.init_time
            } else {
                Some(now_ms)
            },
            ..self
        }
    }
}

/// A counter table with every count at zero.
pub fn zero_counts() -> (v: Vec<u32>)
    ensures
        v@.len() == MAX_SYSCALL_NUM,
        forall|i: int| 0 <= i < v@.len() ==> v@[i] == 0,
{
    let mut v: Vec<u32> = Vec::new();
    while v.len() < MAX_SYSCALL_NUM
        invariant
            v@.len() <= MAX_SYSCALL_NUM,
            forall|i: int| 0 <= i < v@.len() ==> v@[i] == 0,
        decreases MAX_SYSCALL_NUM - v@.len(),
    {
        v.push(0u32);
    }
    v
}

/// A copy of a counter table.
pub fn copy_counts(src: &Vec<u32>) -> (v: Vec<u32>)
    ensures
        v@ == src@,
{
    let mut v: Vec<u32> = Vec::new();
    while v.len() < src.len()
        invariant
            v@.len() <= src@.len(),
            forall|i: int| 0 <= i < v@.len() ==> v@[i] == src@[i],
        decreases src@.len() - v@.len(),
    {
        v.push(src[v.len()]);
    }
    assert(v@ =~= src@);
    v
}

} // verus!
