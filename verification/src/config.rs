//! Sizes shared by every component.

use vstd::prelude::*;

verus! {

/// Bytes in one page (and in one physical frame).
pub const PAGE_SIZE: usize = 4096;

/// Number of system-call slots tracked per task.
pub const MAX_SYSCALL_NUM: usize = 500;

} // verus!
