use mushroom::addr::{Page, PhysFrame, VirtAddr};
use mushroom::decimal::decimal;
use mushroom::fs::node::names::NameMap;
use mushroom::fs::node::{DynINode, FileSnapshot};
use mushroom::fs::{init, load_static_file, StaticFile};
use mushroom::user::process::syscall::args::FileType;

#[test]
fn initial_files_are_placed() {
    let files = init();
    assert_eq!(files.len(), 2);
    assert_eq!(files[0].dir, b"bin");
    assert_eq!(files[0].name, b"init");
    assert_eq!(files[0].file, StaticFile::Init);
    assert!(files[0].executable && files[0].create_new);
    assert_eq!(files[1].dir, b"dev");
    assert_eq!(files[1].name, b"input");
    assert_eq!(files[1].file, StaticFile::Input);
    assert!(!files[1].executable && files[1].create_new);
}

#[test]
fn static_files_follow_their_header() {
    let page = Page::from_start_address(VirtAddr::new(0xffff_8000_0000_0000)).unwrap();
    let frame = PhysFrame::from_start_address(0x100_0000).unwrap();
    let file = load_static_file(page, 10, frame, 10, 0x1001);
    assert_eq!(file.len, 0x1001);
    assert_eq!(file.start.as_u64(), 0xffff_8000_0000_1000);
    let mappings: Vec<(u64, u64)> =
        file.mappings.iter().map(|(page, frame)| (page.start(), frame.start_address())).collect();
    assert_eq!(
        mappings,
        vec![(0xffff_8000_0000_1000, 0x100_1000), (0xffff_8000_0000_2000, 0x100_2000)]
    );
}

#[test]
fn static_files_can_be_empty_or_fill_pages() {
    let page = Page::from_start_address(VirtAddr::new(0x1000)).unwrap();
    let frame = PhysFrame::from_start_address(0).unwrap();
    assert!(load_static_file(page, 1, frame, 1, 0).mappings.is_empty());
    assert_eq!(load_static_file(page, 2, frame, 2, 0x1000).mappings.len(), 1);
}

#[test]
fn snapshots_share_their_content() {
    let snapshot = FileSnapshot::new_static(vec![1, 2, 3], 0x1000);
    let clone = snapshot.clone();
    assert_eq!(clone.len(), 3);
    assert_eq!(clone.get(2), 3);
    assert_eq!(clone.static_base(), Some(0x1000));
    assert_eq!(FileSnapshot::new(vec![1]).static_base(), None);
}

#[test]
fn names_are_in_order() {
    let mut map = NameMap::new();
    let node = |ino| DynINode { ino, ty: FileType::File };
    map.insert(b"b".to_vec(), node(1));
    map.insert(b"".to_vec(), node(2));
    map.insert(b"ba".to_vec(), node(3));
    map.insert(b"b".to_vec(), node(4));
    assert_eq!(map.len(), 3);
    assert_eq!(map.name_at(0), b"");
    assert_eq!(map.name_at(1), b"b");
    assert_eq!(map.name_at(2), b"ba");
    assert_eq!(map.node_at(1), node(4));
    assert_eq!(map.get(&b"ba".to_vec()), Some(node(3)));
    map.remove(&b"b".to_vec());
    map.remove(&b"c".to_vec());
    assert_eq!(map.get(&b"b".to_vec()), None);
    assert_eq!(map.len(), 2);
}

#[test]
fn numbers_are_written_in_decimal() {
    for n in [0, 1, 9, 10, 99, 100, 1234567890, u64::MAX] {
        assert_eq!(decimal(n), format!("{n}").into_bytes());
    }
}
