//! Process and memory management core of a small teaching kernel:
//! a physical frame allocator, per-process address spaces, a process
//! table with a FIFO scheduler, and the system calls built on them.

pub mod config;
pub mod frame;
pub mod mm;
pub mod image;
pub mod task;
pub mod kernel;
pub mod layout;
pub mod syscall;
pub mod laws;
