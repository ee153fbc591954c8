//! The errors that are reported to user space.
use vstd::prelude::*;

verus! {

/// Why an operation failed.
#[derive(Clone, Copy, PartialEq, Eq, Structural, Debug)]
pub enum Error {
    /// Permission denied.
    Acces,
    /// The operation should be tried again.
    Again,
    /// A file descriptor isn't open.
    BadF,
    /// A file exists already.
    Exist,
    /// A pointer refers to memory that may not be accessed.
    Fault,
    /// An argument is invalid.
    Inval,
    /// A file is a directory or isn't one, contrary to what the operation needs.
    IsDir,
    /// Too many symbolic links.
    Loop,
    /// A name is too long.
    NameTooLong,
    /// A file doesn't exist.
    NoEnt,
    /// Out of memory.
    NoMem,
    /// A syscall isn't implemented.
    NoSys,
    /// A deadline passed.
    TimedOut,
}

} // verus!
