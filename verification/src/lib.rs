//! The parts of an operating system kernel for confidential virtual machines that can be
//! reasoned about as data structures, parsers and state machines.

pub mod addr;
pub mod async_io;
pub mod decimal;
pub mod error;
pub mod fs;
pub mod memory;
pub mod queue;
pub mod supervisor;
pub mod user;
