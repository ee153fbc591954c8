//! Syscalls.
pub mod args;
pub mod traits;
