//! Synchronisation syscalls with deadlock detection, and the stride and FIFO
//! schedulers of a small teaching kernel, with their contracts.

pub mod stride;
pub mod deadlock;
pub mod process;
pub mod syscall;
pub mod manager;
