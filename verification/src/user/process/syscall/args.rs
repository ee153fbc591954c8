//! The types of syscall arguments.
use vstd::prelude::*;

verus! {

/// The protection of a memory mapping.
#[derive(Clone, Copy, PartialEq, Eq, Structural, Debug)]
pub struct ProtFlags {
    /// The memory can be read from.
    pub read: bool,
    /// The memory can be written to.
    pub write: bool,
    /// The memory can be executed.
    pub execute: bool,
}

/// What a file is.
#[derive(Clone, Copy, PartialEq, Eq, Structural, Debug)]
pub enum FileType {
    /// A pipe.
    Fifo,
    /// A character device.
    Char,
    /// A directory.
    Dir,
    /// A regular file.
    File,
    /// A symbolic link.
    Link,
    /// A socket.
    Socket,
}

/// Who may do what with a file.
#[derive(Clone, Copy, PartialEq, Eq, Structural, Debug)]
pub struct FileMode {
    /// The permission bits.
    pub bits: u64,
}

/// The mode of a file that everyone may do everything with.
pub open spec fn all_permitted() -> FileMode {
    FileMode { bits: 0o777 }
}

impl FileMode {
    /// The mode of a file that everyone may do everything with.
    pub fn all() -> (res: Self)
        ensures
            res == all_permitted(),
    {
        FileMode { bits: 0o777 }
    }
}

/// What a file is and who may do what with it.
#[derive(Clone, Copy, PartialEq, Eq, Structural, Debug)]
pub struct FileTypeAndMode {
    /// What the file is.
    pub ty: FileType,
    /// Who may do what with it.
    pub mode: FileMode,
}

impl FileTypeAndMode {
    /// Combines a file's type and mode.
    pub fn new(ty: FileType, mode: FileMode) -> (res: Self)
        ensures
            res.ty == ty,
            res.mode == mode,
    {
        FileTypeAndMode { ty, mode }
    }
}

/// A point in time.
#[derive(Clone, Copy, PartialEq, Eq, Structural, Debug)]
pub struct Timespec {
    /// The seconds.
    pub tv_sec: i64,
    /// The nanoseconds.
    pub tv_nsec: i64,
}

/// The first point in time.
pub open spec fn time_zero() -> Timespec {
    Timespec { tv_sec: 0, tv_nsec: 0 }
}

impl Timespec {
    /// The first point in time.
    pub fn zero() -> (res: Self)
        ensures
            res == time_zero(),
    {
        Timespec { tv_sec: 0, tv_nsec: 0 }
    }
}

/// What is known about a file.
#[derive(Clone, Copy, PartialEq, Eq, Structural, Debug)]
pub struct Stat {
    /// The device.
    pub dev: u64,
    /// The number of the node.
    pub ino: u64,
    /// The number of links to the node.
    pub nlink: u64,
    /// The type and the mode.
    pub mode: FileTypeAndMode,
    /// The user that the file belongs to.
    pub uid: u32,
    /// The group that the file belongs to.
    pub gid: u32,
    /// The device that the file stands for.
    pub rdev: u64,
    /// The size in bytes.
    pub size: i64,
    /// The size of a block.
    pub blksize: i64,
    /// The number of blocks.
    pub blocks: i64,
    /// When the file was accessed last.
    pub atime: Timespec,
    /// When the content was changed last.
    pub mtime: Timespec,
    /// When the file was changed last.
    pub ctime: Timespec,
}

/// If everyone may do everything, all nine permission bits are set.
pub proof fn law_all_permitted()
    ensures
        all_permitted().bits == 7 * 64 + 7 * 8 + 7,
        time_zero().tv_sec == 0,
        time_zero().tv_nsec == 0,
{
}

} // verus!
