//! Processes.
pub mod fd;
pub mod futex;
pub mod limits;
pub mod memory;
pub mod syscall;
pub mod thread;
