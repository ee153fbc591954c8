use mushroom::error::Error;
use mushroom::fs::node::fdfs::{format_fd, new, parse_fd, FdNode, OpenFd};
use mushroom::fs::node::{DirEntryName, DynINode};
use mushroom::user::process::syscall::args::{FileMode, FileType};

const MODE: FileMode = FileMode { bits: 0o555 };

#[test]
fn names_are_parsed() {
    assert_eq!(parse_fd(b"0"), Some(0));
    assert_eq!(parse_fd(b"+12"), Some(12));
    assert_eq!(parse_fd(b"-12"), Some(-12));
    assert_eq!(parse_fd(b"007"), Some(7));
    assert_eq!(parse_fd(b"2147483647"), Some(i32::MAX));
    assert_eq!(parse_fd(b"-2147483648"), Some(i32::MIN));
    assert_eq!(parse_fd(b"2147483648"), None);
    assert_eq!(parse_fd(b"-2147483649"), None);
    assert_eq!(parse_fd(b"99999999999999999999999999"), None);
    assert_eq!(parse_fd(b""), None);
    assert_eq!(parse_fd(b"-"), None);
    assert_eq!(parse_fd(b"+"), None);
    assert_eq!(parse_fd(b"1a"), None);
    assert_eq!(parse_fd(b" 1"), None);
    assert_eq!(parse_fd(b"\xff"), None);
}

#[test]
fn names_are_parsed_like_numbers() {
    for name in ["0", "-0", "+0", "--1", "+-1", "10", "0000000000000000000001", "x", "1 "] {
        assert_eq!(parse_fd(name.as_bytes()), name.parse::<i32>().ok(), "{name}");
    }
}

#[test]
fn names_are_formatted() {
    for num in [0, 9, 10, 1234567890, -1, i32::MAX, i32::MIN] {
        assert_eq!(format_fd(num), format!("{num}").into_bytes());
        assert_eq!(parse_fd(&format_fd(num)), Some(num));
    }
}

#[test]
fn open_files_are_found() {
    let root = new(1, MODE, 2);
    let fds = [OpenFd { num: 3, fd: 30, ino: 7 }, OpenFd { num: 4, fd: 40, ino: 8 }];
    assert_eq!(root.get_node(b"4", &fds), Ok(FdNode { fd: 40 }));
    assert_eq!(root.get_node(b"03", &fds), Ok(FdNode { fd: 30 }));
    assert_eq!(u64::from(root.get_node(b"3", &fds).unwrap()), 30);
    assert_eq!(root.get_node(b"5", &fds), Err(Error::BadF));
    assert_eq!(root.get_node(b"five", &fds), Err(Error::NoEnt));
}

#[test]
fn open_files_are_listed() {
    let root = new(1, MODE, 2);
    let fds = [OpenFd { num: 3, fd: 30, ino: 7 }, OpenFd { num: 14, fd: 40, ino: 8 }];
    let entries = root.list_entries(&fds);
    assert_eq!(entries.len(), 2);
    assert_eq!((entries[0].ino, entries[0].ty), (7, FileType::File));
    assert!(matches!(&entries[0].name, DirEntryName::FileName(name) if name == b"3"));
    assert_eq!((entries[1].ino, entries[1].ty), (8, FileType::File));
    assert!(matches!(&entries[1].name, DirEntryName::FileName(name) if name == b"14"));
}

#[test]
fn nothing_else_can_be_done() {
    let root = new(1, MODE, 2);
    let node = DynINode { ino: 3, ty: FileType::File };
    assert_eq!(root.create_file(b"a", MODE, true), Err(Error::NoEnt));
    assert_eq!(root.create_dir(b"a", MODE), Err(Error::NoEnt));
    assert_eq!(root.create_link(b"a", b"b", true), Err(Error::NoEnt));
    assert_eq!(root.hard_link(b"a", node), Err(Error::NoEnt));
    assert_eq!(root.mount(b"a", node), Err(Error::NoEnt));
    assert_eq!(root.delete_non_dir(b"a"), Err(Error::NoEnt));
    assert_eq!(root.delete_dir(b"a"), Err(Error::NoEnt));
}

#[test]
fn the_directory_is_described() {
    let mut root = new(1, MODE, 2);
    assert_eq!(root.parent(true), Ok(1));
    assert_eq!(root.parent(false), Err(Error::NoEnt));
    root.set_mode(FileMode { bits: 0o500 });
    let stat = root.stat();
    assert_eq!(stat.ino, 2);
    assert_eq!(stat.mode.ty, FileType::Dir);
    assert_eq!(stat.mode.mode.bits, 0o500);
    assert_eq!(stat.ctime.tv_sec, 0);
}
