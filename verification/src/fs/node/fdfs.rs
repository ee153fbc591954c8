//! A file system of the open file descriptors.
use vstd::prelude::*;

use crate::decimal;
use crate::error::Error;
use crate::fs::node::{DirEntry, DirEntryName, DynINode};
use crate::user::process::syscall::args::{
    self, FileMode, FileType, FileTypeAndMode, Stat, Timespec,
};

verus! {

/// An open file descriptor.
#[derive(Clone, Copy, PartialEq, Eq, Structural, Debug)]
pub struct OpenFd {
    /// The number that user space knows the file descriptor by.
    pub num: i32,
    /// The number that the kernel knows the file descriptor by.
    pub fd: u64,
    /// The number of the node.
    pub ino: u64,
}

/// The node of an open file descriptor.
#[derive(Clone, Copy, PartialEq, Eq, Structural, Debug)]
pub struct FdNode {
    /// The number that the kernel knows the file descriptor by.
    pub fd: u64,
}

impl From<FdNode> for u64 {
    fn from(value: FdNode) -> (res: u64) {
        value.fd
    }
}

impl vstd::std_specs::convert::FromSpecImpl<FdNode> for u64 {
    open spec fn obeys_from_spec() -> bool {
        true
    }

    open spec fn from_spec(value: FdNode) -> u64 {
        value.fd
    }
}

/// The directory of the open file descriptors.
pub struct FdFsRoot {
    /// The number of the node.
    pub ino: u64,
    /// The number of the parent's node.
    pub parent: u64,
    /// Who may do what with the directory.
    pub mode: FileMode,
}

/// Creates the directory of the open file descriptors.
pub fn new(parent: u64, mode: FileMode, ino: u64) -> (res: FdFsRoot)
    ensures
        res.ino == ino,
        res.parent == parent,
        res.mode == mode,
{
    FdFsRoot { ino, parent, mode }
}

/// The digits of a number that may have a sign.
pub open spec fn unsigned_part(name: Seq<u8>) -> Seq<u8> {
    if name.len() > 0 && (name[0] == 43 || name[0] == 45) {
        name.skip(1)
    } else {
        name
    }
}

/// Whether a number is negative.
pub open spec fn is_negative(name: Seq<u8>) -> bool {
    name.len() > 0 && name[0] == 45
}

/// The number that a name stands for.
pub open spec fn signed_value(name: Seq<u8>) -> int {
    let value = decimal::value(unsigned_part(name)) as int;
    if is_negative(name) {
        -value
    } else {
        value
    }
}

/// Whether a name is a number that a file descriptor can have.
pub open spec fn is_fd_name(name: Seq<u8>) -> bool {
    &&& unsigned_part(name).len() > 0
    &&& decimal::all_digits(unsigned_part(name))
    &&& i32::MIN <= signed_value(name) <= i32::MAX
}

/// The name of a file descriptor.
pub open spec fn fd_name(num: i32) -> Seq<u8> {
    if num < 0 {
        seq![45u8] + decimal::digits((-num) as nat)
    } else {
        decimal::digits(num as nat)
    }
}

/// The value of digits doesn't get smaller if there are more of them.
proof fn lemma_value_grows(bytes: Seq<u8>, i: int)
    requires
        0 <= i <= bytes.len(),
        decimal::all_digits(bytes),
    ensures
        decimal::value(bytes.take(i)) <= decimal::value(bytes),
    decreases bytes.len() - i,
{
    if i < bytes.len() {
        assert(bytes.take(i + 1).drop_last() =~= bytes.take(i));
        lemma_value_grows(bytes, i + 1);
    } else {
        assert(bytes.take(i) =~= bytes);
    }
}

/// Interprets a name as the number of a file descriptor: decimal digits after an optional sign.
pub fn parse_fd(name: &[u8]) -> (res: Option<i32>)
    ensures
        res == if is_fd_name(name@) {
            Some(signed_value(name@) as i32)
        } else {
            None
        },
{
    let negative: bool = name.len() > 0 && name[0] == 45;
    let start: usize = if name.len() > 0 && (name[0] == 43 || name[0] == 45) {
        1
    } else {
        0
    };
    if start == name.len() {
        return None;
    }
    let ghost bytes = unsigned_part(name@);
    assert(bytes =~= name@.skip(start as int));
    let mut value: i64 = 0;
    let mut i: usize = start;
    assert(bytes.take(0) =~= Seq::empty());
    while i < name.len()
        invariant
            start <= i <= name@.len(),
            bytes == name@.skip(start as int),
            bytes == unsigned_part(name@),
            0 <= value <= 0x8000_0000,
            decimal::all_digits(bytes.take(i - start)),
            value == decimal::value(bytes.take(i - start)),
        decreases name@.len() - i,
    {
        let byte: u8 = name[i];
        assert(bytes[i - start] == byte);
        if byte < 48 || byte > 57 {
            return None;
        }
        assert(bytes.take(i - start + 1).drop_last() =~= bytes.take(i - start));
        value = value * 10 + (byte - 48) as i64;
        i = i + 1;
        if value > 0x8000_0000 {
            proof {
                if decimal::all_digits(bytes) {
                    lemma_value_grows(bytes, i - start);
                }
            }
            return None;
        }
    }
    assert(bytes.take(i - start) =~= bytes);
    if negative {
        return Some((-value) as i32);
    }
    if value > 0x7fff_ffff {
        return None;
    }
    Some(value as i32)
}

/// Returns the name of a file descriptor.
pub fn format_fd(num: i32) -> (res: Vec<u8>)
    ensures
        res@ == fd_name(num),
{
    if num < 0 {
        let mut res: Vec<u8> = Vec::new();
        res.push(45);
        let mut digits: Vec<u8> = decimal::decimal((-(num as i64)) as u64);
        res.append(&mut digits);
        assert(res@ =~= fd_name(num));
        res
    } else {
        decimal::decimal(num as u64)
    }
}

/// The name of a file descriptor stands for its number.
pub proof fn law_fd_names_are_numbers(num: i32)
    ensures
        is_fd_name(fd_name(num)),
        signed_value(fd_name(num)) == num,
{
    let name = fd_name(num);
    let digits = if num < 0 {
        decimal::digits((-num) as nat)
    } else {
        decimal::digits(num as nat)
    };
    if num < 0 {
        decimal::law_digits_have_value((-num) as nat);
        assert(name.skip(1) =~= digits);
    } else {
        decimal::law_digits_have_value(num as nat);
        assert(decimal::is_digit(digits[0]));
    }
}

/// The file descriptor with a number.
pub open spec fn find_fd(fds: Seq<OpenFd>, num: int) -> Option<OpenFd>
    decreases fds.len(),
{
    if fds.len() == 0 {
        None
    } else if fds[0].num == num {
        Some(fds[0])
    } else {
        find_fd(fds.skip(1), num)
    }
}

impl FdFsRoot {
    /// The parent, if it still exists.
    pub fn parent(&self, exists: bool) -> (res: Result<u64, Error>)
        ensures
            res == (if exists {
                Ok::<u64, Error>(self.parent)
            } else {
                Err(Error::NoEnt)
            }),
    {
        if exists {
            Ok(self.parent)
        } else {
            Err(Error::NoEnt)
        }
    }

    /// What is known about the directory.
    pub fn stat(&self) -> (res: Stat)
        ensures
            res == (Stat {
                dev: 0,
                ino: self.ino,
                nlink: 1,
                mode: FileTypeAndMode { ty: FileType::Dir, mode: self.mode },
                uid: 0,
                gid: 0,
                rdev: 0,
                size: 0,
                blksize: 0,
                blocks: 0,
                atime: args::time_zero(),
                mtime: args::time_zero(),
                ctime: args::time_zero(),
            }),
    {
        let mode: FileTypeAndMode = FileTypeAndMode::new(FileType::Dir, self.mode);
        Stat {
            dev: 0,
            ino: self.ino,
            nlink: 1,
            mode,
            uid: 0,
            gid: 0,
            rdev: 0,
            size: 0,
            blksize: 0,
            blocks: 0,
            atime: Timespec::zero(),
            mtime: Timespec::zero(),
            ctime: Timespec::zero(),
        }
    }

    /// Changes who may do what with the directory.
    pub fn set_mode(&mut self, mode: FileMode)
        ensures
            *final(self) == (FdFsRoot { mode, ..*old(self) }),
    {
        self.mode = mode;
    }

    /// Finds the open file descriptor that a name stands for.
    pub fn get_node(&self, file_name: &[u8], fds: &[OpenFd]) -> (res: Result<FdNode, Error>)
        ensures
            res == (if !is_fd_name(file_name@) {
                Err::<FdNode, Error>(Error::NoEnt)
            } else {
                match find_fd(fds@, signed_value(file_name@)) {
                    Some(fd) => Ok(FdNode { fd: fd.fd }),
                    None => Err(Error::BadF),
                }
            }),
    {
        let num: i32 = match parse_fd(file_name) {
            Some(num) => num,
            None => {
                return Err(Error::NoEnt);
            },
        };
        let mut i: usize = 0;
        assert(fds@.skip(0) =~= fds@);
        while i < fds.len()
            invariant
                i <= fds@.len(),
                is_fd_name(file_name@),
                num == signed_value(file_name@),
                find_fd(fds@, num as int) == find_fd(fds@.skip(i as int), num as int),
            decreases fds@.len() - i,
        {
            assert(fds@.skip(i as int).skip(1) =~= fds@.skip(i + 1));
            if fds[i].num == num {
                return Ok(FdNode { fd: fds[i].fd });
            }
            i = i + 1;
        }
        Err(Error::BadF)
    }

    /// Files can't be created.
    pub fn create_file(&self, file_name: &[u8], mode: FileMode, create_new: bool) -> (res: Result<
        DynINode,
        Error,
    >)
        ensures
            res == Err::<DynINode, Error>(Error::NoEnt),
    {
        Err(Error::NoEnt)
    }

    /// Directories can't be created.
    pub fn create_dir(&self, file_name: &[u8], mode: FileMode) -> (res: Result<DynINode, Error>)
        ensures
            res == Err::<DynINode, Error>(Error::NoEnt),
    {
        Err(Error::NoEnt)
    }

    /// Symbolic links can't be created.
    pub fn create_link(&self, file_name: &[u8], target: &[u8], create_new: bool) -> (res: Result<
        (),
        Error,
    >)
        ensures
            res == Err::<(), Error>(Error::NoEnt),
    {
        Err(Error::NoEnt)
    }

    /// Links can't be created.
    pub fn hard_link(&self, file_name: &[u8], node: DynINode) -> (res: Result<(), Error>)
        ensures
            res == Err::<(), Error>(Error::NoEnt),
    {
        Err(Error::NoEnt)
    }

    /// Nodes can't be placed in the directory.
    pub fn mount(&self, file_name: &[u8], node: DynINode) -> (res: Result<(), Error>)
        ensures
            res == Err::<(), Error>(Error::NoEnt),
    {
        Err(Error::NoEnt)
    }

    /// Lists the open file descriptors.
    pub fn list_entries(&self, fds: &[OpenFd]) -> (res: Vec<DirEntry>)
        ensures
            res@.len() == fds@.len(),
            forall|i: int|
                0 <= i < fds@.len() ==> {
                    &&& (#[trigger] res@[i]).ino == fds@[i].ino
                    &&& res@[i].ty == FileType::File
                    &&& res@[i].name matches DirEntryName::FileName(name) && name@ == fd_name(
                        fds@[i].num,
                    )
                },
    {
        let mut entries: Vec<DirEntry> = Vec::new();
        let mut i: usize = 0;
        while i < fds.len()
            invariant
                i <= fds@.len(),
                entries@.len() == i,
                forall|j: int|
                    0 <= j < i ==> {
                        &&& (#[trigger] entries@[j]).ino == fds@[j].ino
                        &&& entries@[j].ty == FileType::File
                        &&& entries@[j].name matches DirEntryName::FileName(name) && name@
                            == fd_name(fds@[j].num)
                    },
            decreases fds@.len() - i,
        {
            entries.push(
                DirEntry {
                    ino: fds[i].ino,
                    ty: FileType::File,
                    name: DirEntryName::FileName(format_fd(fds[i].num)),
                },
            );
            i = i + 1;
        }
        entries
    }

    /// Nodes can't be removed.
    pub fn delete_non_dir(&self, file_name: &[u8]) -> (res: Result<(), Error>)
        ensures
            res == Err::<(), Error>(Error::NoEnt),
    {
        Err(Error::NoEnt)
    }

    /// Directories can't be removed.
    pub fn delete_dir(&self, file_name: &[u8]) -> (res: Result<(), Error>)
        ensures
            res == Err::<(), Error>(Error::NoEnt),
    {
        Err(Error::NoEnt)
    }
}

/// A name is the number of a file descriptor if it consists of decimal digits with an optional sign and
/// the number has 32 bits. Leading zeros don't matter.
pub proof fn law_names_with_sign(digits: Seq<u8>)
    requires
        digits.len() > 0,
        forall|i: int| 0 <= i < digits.len() ==> 48 <= #[trigger] digits[i] <= 57,
    ensures
        ({
            let value = decimal::value(digits);
            let plus = seq![43u8] + digits;
            let minus = seq![45u8] + digits;
            &&& is_fd_name(digits) <==> value <= 0x7fff_ffff
            &&& is_fd_name(digits) ==> signed_value(digits) == value
            &&& is_fd_name(plus) <==> value <= 0x7fff_ffff
            &&& is_fd_name(plus) ==> signed_value(plus) == value
            &&& is_fd_name(minus) <==> value <= 0x8000_0000
            &&& is_fd_name(minus) ==> signed_value(minus) == -value
        }),
{
    assert((seq![43u8] + digits).skip(1) =~= digits);
    assert((seq![45u8] + digits).skip(1) =~= digits);
    assert(digits[0] >= 48);
}

/// A name without digits, or with a byte that isn't a digit or a leading sign, isn't a number.
pub proof fn law_names_without_number(name: Seq<u8>, i: int)
    ensures
        name.len() == 0 ==> !is_fd_name(name),
        name.len() == 1 && !(48 <= name[0] <= 57) ==> !is_fd_name(name),
        0 < i < name.len() && !(48 <= name[i] <= 57) ==> !is_fd_name(name),
        0 < name.len() && !(48 <= name[0] <= 57) && name[0] != 43 && name[0] != 45 ==> !is_fd_name(
            name,
        ),
{
    let digits = unsigned_part(name);
    if is_fd_name(name) {
        if 0 < i < name.len() {
            let k = if digits.len() < name.len() {
                i - 1
            } else {
                i
            };
            assert(digits[k] == name[i]);
            assert(decimal::is_digit(digits[k]));
        }
        assert(decimal::is_digit(digits[0]));
    }
}

/// The name of a file descriptor is its number in decimal, with a sign if it's negative.
pub proof fn law_names_of_fds(num: i32)
    ensures
        num >= 0 ==> decimal::value(fd_name(num)) == num && decimal::all_digits(fd_name(num)),
        num < 0 ==> {
            &&& fd_name(num)[0] == 45
            &&& decimal::value(fd_name(num).skip(1)) == -num
            &&& decimal::all_digits(fd_name(num).skip(1))
        },
        num > 0 ==> fd_name(num)[0] != 48,
        num < 0 ==> fd_name(num)[1] != 48,
        num == 0 ==> fd_name(num).len() == 1,
{
    let n = if num < 0 {
        (-num) as nat
    } else {
        num as nat
    };
    decimal::law_digits_have_value(n);
    decimal::law_digits(n);
    if num < 0 {
        assert(fd_name(num).skip(1) =~= decimal::digits(n));
    }
}

/// The first file descriptor with a number is found, if there is one.
pub proof fn law_found_fd(fds: Seq<OpenFd>, num: int) -> (at: int)
    ensures
        match find_fd(fds, num) {
            Some(fd) => {
                &&& 0 <= at < fds.len()
                &&& fd == fds[at]
                &&& fd.num == num
                &&& forall|i: int| 0 <= i < at ==> (#[trigger] fds[i]).num != num
            },
            None => forall|i: int| 0 <= i < fds.len() ==> (#[trigger] fds[i]).num != num,
        },
    decreases fds.len(),
{
    if fds.len() == 0 || fds[0].num == num {
        0
    } else {
        let rest = fds.skip(1);
        let at = law_found_fd(rest, num);
        let end: int = if find_fd(rest, num) is Some {
            at
        } else {
            rest.len() as int
        };
        assert forall|i: int| 0 <= i < end + 1 implies (#[trigger] fds[i]).num != num by {
            if i > 0 {
                assert(rest[i - 1] == fds[i]);
            }
        }
        at + 1
    }
}

} // verus!
