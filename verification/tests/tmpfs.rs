use mushroom::addr::{PhysFrame, VirtAddr};
use mushroom::error::Error;
use mushroom::fs::node::tmpfs::{Buffer, CreatedFile, TmpFsDir, TmpFsFile, TmpFsSymlink};
use mushroom::fs::node::{DirEntryName, DynINode};
use mushroom::user::process::memory::mapping::MemoryPermissions;
use mushroom::user::process::memory::{ActiveVirtualMemory, VirtualMemory};
use mushroom::user::process::syscall::args::{FileMode, FileType, Timespec};

const RW: MemoryPermissions = MemoryPermissions { execute: false, write: true, read: true };
const MODE: FileMode = FileMode { bits: 0o644 };
const NOW: Timespec = Timespec { tv_sec: 5, tv_nsec: 6 };

fn file(content: &[u8]) -> TmpFsFile {
    TmpFsFile::new(MODE, content, 42, NOW)
}

fn content(file: &TmpFsFile) -> Vec<u8> {
    let mut buf = vec![0; 0x1_0000];
    let len = file.read(0, &mut buf).unwrap();
    buf.truncate(len);
    buf
}

fn address_space() -> VirtualMemory {
    let mut counter = 1;
    VirtualMemory::new(&mut counter, PhysFrame::from_start_address(0x1000).unwrap())
}

#[test]
fn buffers_start_out_with_their_content() {
    assert_eq!(Buffer::new(&[]).len(), 0);
    let buffer = Buffer::new(&[1, 2, 3]);
    assert_eq!(buffer.len(), 3);
    assert_eq!(buffer.read(1, 5), vec![&[2u8, 3][..]]);
    assert_eq!(buffer.read(1, 1), vec![&[2u8][..]]);
    assert!(buffer.read(3, 1).is_empty());
}

#[test]
fn buffers_are_read_in_pieces() {
    let mut buffer = Buffer::new(&[1, 2, 3]);
    buffer.truncate(5);
    assert_eq!(buffer.len(), 5);
    assert_eq!(buffer.read(1, 3), vec![&[2u8, 3][..], &[0u8][..]]);
    assert_eq!(buffer.read(0, 2), vec![&[1u8, 2][..], &[][..]]);
    buffer.write(2, &[7, 8]);
    assert_eq!(buffer.read(0, 5), vec![&[1u8, 2, 7][..], &[8u8, 0][..]]);
}

#[test]
fn buffers_grow() {
    let mut buffer = Buffer::new(&[]);
    buffer.grow(2);
    assert_eq!(buffer.read(0, 9), vec![&[0u8, 0][..]]);
    buffer.grow(1);
    assert_eq!(buffer.len(), 2);
    buffer.write(0, &[1, 2]);
    buffer.grow(4);
    assert_eq!(buffer.read(0, 9), vec![&[1u8, 2, 0, 0][..]]);
}

#[test]
fn the_last_of_several_chunks_grows_beyond_what_is_needed() {
    let mut buffer = Buffer::new(&[1, 2, 3]);
    buffer.truncate(5);
    buffer.grow(6);
    assert_eq!(buffer.len(), 9);
    assert_eq!(buffer.read(0, 9), vec![&[1u8, 2, 3][..], &[0u8, 0, 0, 0, 0, 0][..]]);
}

#[test]
fn buffers_are_truncated() {
    let mut buffer = Buffer::new(&[1, 2, 3]);
    buffer.truncate(5);
    buffer.truncate(3);
    assert_eq!(buffer.read(0, 9), vec![&[1u8, 2, 3][..]]);
    buffer.truncate(3);
    assert_eq!(buffer.len(), 3);
    buffer.truncate(1);
    assert_eq!(buffer.read(0, 9), vec![&[1u8][..]]);
    buffer.truncate(0);
    assert_eq!(buffer.len(), 0);
}

#[test]
fn snapshots_do_not_change() {
    let mut file = file(&[1, 2, 3]);
    let snapshot = file.read_snapshot();
    let same = file.read_snapshot();
    file.write(0, &[9]).unwrap();
    assert_eq!(snapshot.len(), 3);
    assert_eq!(snapshot.get(0), 1);
    assert_eq!(same.get(0), 1);
    assert_eq!(file.read_snapshot().get(0), 9);
    assert_eq!(snapshot.static_base(), None);
}

#[test]
fn what_is_written_to_a_file_is_read() {
    let mut file = file(b"hello");
    assert_eq!(file.write(1, b"ipp"), Ok(3));
    assert_eq!(content(&file), b"hippo");
    // A gap is filled with zeros.
    assert_eq!(file.write(7, b"!"), Ok(1));
    assert_eq!(content(&file), b"hippo\0\0!");
    assert_eq!(file.write(0, b""), Ok(0));
    assert_eq!(content(&file), b"hippo\0\0!");
}

#[test]
fn files_are_read_from_an_offset() {
    let file = file(b"hello");
    let mut buf = [b'.'; 4];
    assert_eq!(file.read(3, &mut buf), Ok(2));
    assert_eq!(&buf, b"lo..");
    assert_eq!(file.read(5, &mut buf), Ok(0));
    assert_eq!(file.read(6, &mut buf), Err(Error::Inval));
    assert_eq!(&buf, b"lo..");
}

#[test]
fn files_are_appended_to() {
    let mut file = file(b"ab");
    assert_eq!(file.append(b"cd"), Ok(2));
    assert_eq!(content(&file), b"abcd");
}

#[test]
fn files_are_truncated() {
    let mut file = file(b"hello");
    assert_eq!(file.truncate(2), Ok(()));
    assert_eq!(content(&file), b"he");
    assert_eq!(file.truncate(4), Ok(()));
    assert_eq!(content(&file), b"he\0\0");
}

#[test]
fn files_are_described() {
    let mut file = file(b"hello");
    file.set_mode(FileMode { bits: 0o600 });
    let stat = file.stat();
    assert_eq!(stat.ino, 42);
    assert_eq!(stat.size, 5);
    assert_eq!(stat.nlink, 1);
    assert_eq!(stat.mode.ty, FileType::File);
    assert_eq!(stat.mode.mode.bits, 0o600);
    assert_eq!((stat.atime, stat.mtime, stat.ctime), (NOW, NOW, NOW));
    assert_eq!((stat.dev, stat.uid, stat.gid, stat.rdev), (0, 0, 0, 0));
}

#[test]
fn files_are_read_into_memory() {
    let mut space = address_space();
    let mut vm = ActiveVirtualMemory { virtual_memory: &mut space };
    vm.mmap_zero(Some(VirtAddr::new(0x1_0000)), 0x1000, RW).unwrap();
    let file = file(b"hello");
    assert_eq!(file.read_to_user(1, &mut vm, VirtAddr::new(0x1_0010), 3), Ok(3));
    let mut buf = [1; 5];
    vm.read(VirtAddr::new(0x1_000f), &mut buf).unwrap();
    assert_eq!(&buf, b"\0ell\0");
    assert_eq!(file.read_to_user(6, &mut vm, VirtAddr::new(0x1_0010), 3), Err(Error::Inval));
    assert_eq!(file.read_to_user(0, &mut vm, VirtAddr::new(0x2_0000), 3), Err(Error::Fault));
    assert_eq!(file.read_to_user(5, &mut vm, VirtAddr::new(0x2_0000), 3), Ok(0));
}

#[test]
fn files_are_written_from_memory() {
    let mut space = address_space();
    let mut vm = ActiveVirtualMemory { virtual_memory: &mut space };
    vm.mmap_zero(Some(VirtAddr::new(0x1_0000)), 0x1000, RW).unwrap();
    vm.write(VirtAddr::new(0x1_0ffc), b"abcd").unwrap();
    let mut file = file(b"hello");
    assert_eq!(file.write_from_user(4, &mut vm, VirtAddr::new(0x1_0ffc), 4), Ok(4));
    assert_eq!(content(&file), b"hellabcd");
    assert_eq!(file.append_from_user(&mut vm, VirtAddr::new(0x1_0ffe), 2), Ok(2));
    assert_eq!(content(&file), b"hellabcdcd");
    // What could be read has been written.
    assert_eq!(file.write_from_user(0, &mut vm, VirtAddr::new(0x1_0ffd), 5), Err(Error::Fault));
    assert_eq!(content(&file), b"bcdlabcdcd");
}

#[test]
fn directories_hold_nodes() {
    let mut root = TmpFsDir::root(MODE, 1, NOW);
    assert_eq!(root.parent(true), Ok(1));
    assert_eq!(root.get_node(&b"a".to_vec()), Err(Error::NoEnt));

    let dir = root.create_dir(b"dir".to_vec(), MODE, 2, NOW).unwrap();
    assert_eq!(dir.parent(true), Ok(1));
    assert_eq!(dir.parent(false), Err(Error::NoEnt));
    assert_eq!(dir.stat().ino, 2);
    assert_eq!(dir.stat().mode.ty, FileType::Dir);
    assert_eq!(dir.stat().mtime, NOW);
    assert_eq!(root.get_node(&b"dir".to_vec()), Ok(DynINode { ino: 2, ty: FileType::Dir }));
    assert_eq!(root.create_dir(b"dir".to_vec(), MODE, 3, NOW).err(), Some(Error::Exist));
    assert_eq!(root.get_node(&b"dir".to_vec()), Ok(DynINode { ino: 2, ty: FileType::Dir }));

    root.set_mode(FileMode { bits: 0o700 });
    assert_eq!(root.stat().mode.mode.bits, 0o700);
}

#[test]
fn files_are_created_or_found() {
    let mut root = TmpFsDir::root(MODE, 1, NOW);
    match root.create_file(b"file".to_vec(), MODE, true, 2, NOW) {
        Ok(CreatedFile::New(file)) => {
            assert_eq!(file.stat().ino, 2);
            assert_eq!(file.stat().size, 0);
        }
        _ => unreachable!(),
    }
    let node = DynINode { ino: 2, ty: FileType::File };
    assert_eq!(root.create_file(b"file".to_vec(), MODE, true, 3, NOW).err(), Some(Error::Exist));
    assert!(matches!(
        root.create_file(b"file".to_vec(), MODE, false, 3, NOW),
        Ok(CreatedFile::Existing(found)) if found == node
    ));

    root.create_dir(b"dir".to_vec(), MODE, 4, NOW).unwrap();
    assert_eq!(root.create_file(b"dir".to_vec(), MODE, false, 5, NOW).err(), Some(Error::Exist));

    root.create_link(b"link".to_vec(), b"file".to_vec(), true, 6).unwrap();
    assert!(matches!(
        root.create_file(b"link".to_vec(), MODE, false, 7, NOW),
        Ok(CreatedFile::Link(found)) if found.ino == 6
    ));
}

#[test]
fn links_replace_nodes() {
    let mut root = TmpFsDir::root(MODE, 1, NOW);
    let link = root.create_link(b"a".to_vec(), b"/target".to_vec(), true, 2).unwrap();
    assert_eq!(link.read_link(), Ok(b"/target".to_vec()));
    assert_eq!(
        root.create_link(b"a".to_vec(), b"/other".to_vec(), true, 3).err(),
        Some(Error::Exist)
    );
    assert_eq!(root.get_node(&b"a".to_vec()).unwrap().ino, 2);
    root.create_link(b"a".to_vec(), b"/other".to_vec(), false, 3).unwrap();
    assert_eq!(root.get_node(&b"a".to_vec()), Ok(DynINode { ino: 3, ty: FileType::Link }));
}

#[test]
fn nodes_are_mounted_and_linked() {
    let mut root = TmpFsDir::root(MODE, 1, NOW);
    let node = DynINode { ino: 9, ty: FileType::Char };
    assert_eq!(root.mount(b"a".to_vec(), node), Ok(()));
    assert_eq!(root.get_node(&b"a".to_vec()), Ok(node));
    let other = DynINode { ino: 10, ty: FileType::File };
    assert_eq!(root.hard_link(b"a".to_vec(), other), Ok(()));
    assert_eq!(root.get_node(&b"a".to_vec()), Ok(other));
}

#[test]
fn entries_are_listed_in_order() {
    let mut root = TmpFsDir::root(MODE, 1, NOW);
    for (i, name) in ["b", "a", "ab", "B"].iter().enumerate() {
        let node = DynINode { ino: i as u64, ty: FileType::File };
        root.mount(name.as_bytes().to_vec(), node).unwrap();
    }
    let entries = root.list_entries();
    assert_eq!(entries.len(), 6);
    assert!(matches!(entries[0].name, DirEntryName::Dot));
    assert!(matches!(entries[1].name, DirEntryName::DotDot));
    assert_eq!((entries[0].ino, entries[0].ty), (0, FileType::Dir));
    assert_eq!((entries[1].ino, entries[1].ty), (0, FileType::Dir));
    let names: Vec<(&[u8], u64)> = entries[2..]
        .iter()
        .map(|entry| match &entry.name {
            DirEntryName::FileName(name) => (&name[..], entry.ino),
            _ => unreachable!(),
        })
        .collect();
    assert_eq!(names, vec![(&b"B"[..], 3), (&b"a"[..], 1), (&b"ab"[..], 2), (&b"b"[..], 0)]);
}

#[test]
fn nodes_are_deleted() {
    let mut root = TmpFsDir::root(MODE, 1, NOW);
    root.create_dir(b"dir".to_vec(), MODE, 2, NOW).unwrap();
    root.create_file(b"file".to_vec(), MODE, true, 3, NOW).unwrap();

    assert_eq!(root.delete_non_dir(b"none".to_vec()), Err(Error::NoEnt));
    assert_eq!(root.delete_dir(b"none".to_vec()), Err(Error::NoEnt));
    assert_eq!(root.delete_non_dir(b"dir".to_vec()), Err(Error::IsDir));
    assert_eq!(root.delete_dir(b"file".to_vec()), Err(Error::IsDir));
    assert_eq!(root.get_node(&b"dir".to_vec()).unwrap().ino, 2);

    assert_eq!(root.delete_non_dir(b"file".to_vec()), Ok(()));
    assert_eq!(root.get_node(&b"file".to_vec()), Err(Error::NoEnt));
    assert_eq!(root.delete_dir(b"dir".to_vec()), Ok(()));
    assert_eq!(root.get_node(&b"dir".to_vec()), Err(Error::NoEnt));
    assert_eq!(root.list_entries().len(), 2);
}

#[test]
fn links_can_not_be_opened() {
    let link = TmpFsSymlink { ino: 3, target: b"x".to_vec() };
    assert_eq!(link.open(), Err(Error::Loop));
    let stat = link.stat();
    assert_eq!(stat.ino, 3);
    assert_eq!(stat.mode.ty, FileType::Link);
    assert_eq!(stat.mode.mode.bits, 0o777);
    assert_eq!(stat.atime, Timespec { tv_sec: 0, tv_nsec: 0 });
}
