use mushroom::addr::{Page, VirtAddr};
use mushroom::user::process::memory::page_map::PageMap;

fn page(addr: u64) -> Page {
    Page::containing_address(VirtAddr::new(addr))
}

/// Insert some values that the test case doesn't modify.
fn insert_unrelated(map: &mut PageMap<i32>) {
    map.insert_iter(page(0x00000), vec![0, 1]);
    map.insert_iter(page(0xfe000), vec![0xfe, 0xff]);
    check_unrelated(map);
}

/// Check that the values inserted in `insert_unrelated` are still correct.
fn check_unrelated(map: &PageMap<i32>) {
    assert_eq!(map[page(0x00000)], 0);
    assert_eq!(map[page(0x01000)], 1);
    assert_eq!(map[page(0xfe000)], 0xfe);
    assert_eq!(map[page(0xff000)], 0xff);
}

#[test]
fn insert_many() {
    let mut map = PageMap::new();
    map.insert_iter(page(0x5000), vec![5, 6, 7, 8]);
    assert_eq!(map.get(page(0x4000)), None);
    assert_eq!(map[page(0x5000)], 5);
    assert_eq!(map[page(0x6000)], 6);
    assert_eq!(map[page(0x7000)], 7);
    assert_eq!(map[page(0x8000)], 8);
    assert_eq!(map.get(page(0x9000)), None);

    // Overlapping insertion (inner).
    map.insert_iter(page(0x6000), vec![16, 17]);
    assert_eq!(map.get(page(0x4000)), None);
    assert_eq!(map[page(0x5000)], 5);
    assert_eq!(map[page(0x6000)], 16);
    assert_eq!(map[page(0x7000)], 17);
    assert_eq!(map[page(0x8000)], 8);
    assert_eq!(map.get(page(0x9000)), None);

    // Overlapping insertion (start).
    map.insert_iter(page(0x5000), vec![25, 26]);
    assert_eq!(map.get(page(0x4000)), None);
    assert_eq!(map[page(0x5000)], 25);
    assert_eq!(map[page(0x6000)], 26);
    assert_eq!(map[page(0x7000)], 17);
    assert_eq!(map[page(0x8000)], 8);
    assert_eq!(map.get(page(0x9000)), None);

    // Overlapping insertion (before).
    map.insert_iter(page(0x4000), vec![34, 35]);
    assert_eq!(map.get(page(0x3000)), None);
    assert_eq!(map[page(0x4000)], 34);
    assert_eq!(map[page(0x5000)], 35);
    assert_eq!(map[page(0x6000)], 26);
    assert_eq!(map[page(0x7000)], 17);
    assert_eq!(map[page(0x8000)], 8);
    assert_eq!(map.get(page(0x9000)), None);

    // insertion before.
    map.insert_iter(page(0x3000), vec![43]);
    assert_eq!(map.get(page(0x2000)), None);
    assert_eq!(map[page(0x3000)], 43);
    assert_eq!(map[page(0x4000)], 34);
    assert_eq!(map[page(0x5000)], 35);
    assert_eq!(map[page(0x6000)], 26);
    assert_eq!(map[page(0x7000)], 17);
    assert_eq!(map[page(0x8000)], 8);
    assert_eq!(map.get(page(0x9000)), None);

    // Overlapping insertion (end).
    map.insert_iter(page(0x7000), vec![57, 58]);
    assert_eq!(map.get(page(0x2000)), None);
    assert_eq!(map[page(0x3000)], 43);
    assert_eq!(map[page(0x4000)], 34);
    assert_eq!(map[page(0x5000)], 35);
    assert_eq!(map[page(0x6000)], 26);
    assert_eq!(map[page(0x7000)], 57);
    assert_eq!(map[page(0x8000)], 58);
    assert_eq!(map.get(page(0x9000)), None);

    // Overlapping insertion (after).
    map.insert_iter(page(0x8000), vec![68, 69]);
    assert_eq!(map.get(page(0x2000)), None);
    assert_eq!(map[page(0x3000)], 43);
    assert_eq!(map[page(0x4000)], 34);
    assert_eq!(map[page(0x5000)], 35);
    assert_eq!(map[page(0x6000)], 26);
    assert_eq!(map[page(0x7000)], 57);
    assert_eq!(map[page(0x8000)], 68);
    assert_eq!(map[page(0x9000)], 69);
    assert_eq!(map.get(page(0xa000)), None);

    // insertion after.
    map.insert_iter(page(0xa000), vec![70]);
    assert_eq!(map.get(page(0x2000)), None);
    assert_eq!(map[page(0x3000)], 43);
    assert_eq!(map[page(0x4000)], 34);
    assert_eq!(map[page(0x5000)], 35);
    assert_eq!(map[page(0x6000)], 26);
    assert_eq!(map[page(0x7000)], 57);
    assert_eq!(map[page(0x8000)], 68);
    assert_eq!(map[page(0x9000)], 69);
    assert_eq!(map[page(0xa000)], 70);
    assert_eq!(map.get(page(0xb000)), None);

    // Overlapping insertion (outer).
    map.insert_iter(page(0x2000), vec![82, 83, 84, 85, 86, 87, 88, 89, 80, 81]);
    assert_eq!(map.get(page(0x1000)), None);
    assert_eq!(map[page(0x2000)], 82);
    assert_eq!(map[page(0x3000)], 83);
    assert_eq!(map[page(0x4000)], 84);
    assert_eq!(map[page(0x5000)], 85);
    assert_eq!(map[page(0x6000)], 86);
    assert_eq!(map[page(0x7000)], 87);
    assert_eq!(map[page(0x8000)], 88);
    assert_eq!(map[page(0x9000)], 89);
    assert_eq!(map[page(0xa000)], 80);
    assert_eq!(map[page(0xb000)], 81);
    assert_eq!(map.get(page(0xc000)), None);

    // Overlapping insertion (hole).
    map.insert_iter(page(0xd000), vec![0]);
    assert_eq!(map[page(0xd000)], 0);
    map.insert_iter(page(0xb000), vec![101, 102, 103]);
    assert_eq!(map[page(0xb000)], 101);
    assert_eq!(map[page(0xc000)], 102);
    assert_eq!(map[page(0xd000)], 103);
}

#[test]
fn chunk_count() {
    let mut map = PageMap::new();
    map.insert(page(0x0000), 0);
    map.insert(page(0x1000), 1);
    map.insert(page(0x2000), 2);
    map.insert(page(0x3000), 3);
    assert_eq!(map.chunk_count(), 1);
}

#[test]
fn remove_many() {
    // remove all
    let mut map = PageMap::new();
    insert_unrelated(&mut map);
    map.insert_iter(page(0x5000), vec![5, 6, 7, 8]);
    map.remove_many(page(0x5000), 4);
    assert_eq!(map.get(page(0x5000)), None);
    assert_eq!(map.get(page(0x6000)), None);
    assert_eq!(map.get(page(0x7000)), None);
    assert_eq!(map.get(page(0x8000)), None);
    check_unrelated(&map);

    // remove all, start before
    let mut map = PageMap::new();
    insert_unrelated(&mut map);
    map.insert_iter(page(0x5000), vec![5, 6, 7, 8]);
    map.remove_many(page(0x4000), 5);
    assert_eq!(map.get(page(0x5000)), None);
    assert_eq!(map.get(page(0x6000)), None);
    assert_eq!(map.get(page(0x7000)), None);
    assert_eq!(map.get(page(0x8000)), None);
    check_unrelated(&map);

    // remove all, end after
    let mut map = PageMap::new();
    insert_unrelated(&mut map);
    map.insert_iter(page(0x5000), vec![5, 6, 7, 8]);
    map.remove_many(page(0x5000), 5);
    assert_eq!(map.get(page(0x5000)), None);
    assert_eq!(map.get(page(0x6000)), None);
    assert_eq!(map.get(page(0x7000)), None);
    assert_eq!(map.get(page(0x8000)), None);
    check_unrelated(&map);

    // remove all, start before, end after
    let mut map = PageMap::new();
    insert_unrelated(&mut map);
    map.insert_iter(page(0x5000), vec![5, 6, 7, 8]);
    map.remove_many(page(0x4000), 6);
    assert_eq!(map.get(page(0x5000)), None);
    assert_eq!(map.get(page(0x6000)), None);
    assert_eq!(map.get(page(0x7000)), None);
    assert_eq!(map.get(page(0x8000)), None);
    check_unrelated(&map);

    // start after
    let mut map = PageMap::new();
    insert_unrelated(&mut map);
    map.insert_iter(page(0x5000), vec![5, 6, 7, 8]);
    map.remove_many(page(0x6000), 3);
    assert_eq!(map[page(0x5000)], 5);
    assert_eq!(map.get(page(0x6000)), None);
    assert_eq!(map.get(page(0x7000)), None);
    assert_eq!(map.get(page(0x8000)), None);
    check_unrelated(&map);

    // end before
    let mut map = PageMap::new();
    insert_unrelated(&mut map);
    map.insert_iter(page(0x5000), vec![5, 6, 7, 8]);
    map.remove_many(page(0x5000), 3);
    assert_eq!(map.get(page(0x5000)), None);
    assert_eq!(map.get(page(0x6000)), None);
    assert_eq!(map.get(page(0x7000)), None);
    assert_eq!(map[page(0x8000)], 8);
    check_unrelated(&map);

    // start after, end before
    let mut map = PageMap::new();
    insert_unrelated(&mut map);
    map.insert_iter(page(0x5000), vec![5, 6, 7, 8]);
    map.remove_many(page(0x6000), 2);
    assert_eq!(map[page(0x5000)], 5);
    assert_eq!(map.get(page(0x6000)), None);
    assert_eq!(map.get(page(0x7000)), None);
    assert_eq!(map[page(0x8000)], 8);
    check_unrelated(&map);

    // remove two chunks
    let mut map = PageMap::new();
    insert_unrelated(&mut map);
    map.insert_iter(page(0x05000), vec![5, 6, 7, 8]);
    map.insert_iter(page(0x15000), vec![15, 16, 17, 18]);
    map.remove_many(page(0x5000), 100);
    assert_eq!(map.get(page(0x5000)), None);
    assert_eq!(map.get(page(0x6000)), None);
    assert_eq!(map.get(page(0x7000)), None);
    assert_eq!(map.get(page(0x8000)), None);
    assert_eq!(map.get(page(0x15000)), None);
    assert_eq!(map.get(page(0x16000)), None);
    assert_eq!(map.get(page(0x17000)), None);
    assert_eq!(map.get(page(0x18000)), None);
    check_unrelated(&map);
}

#[test]
fn values_can_be_changed_in_place() {
    let mut map = PageMap::new();
    map.insert_iter(page(0x5000), vec![5, 6]);
    *map.get_mut(page(0x6000)).unwrap() = 60;
    assert_eq!(map.get(page(0x6000)), Some(&60));
    assert!(map.get_mut(page(0x7000)).is_none());
    *map.iter_mut(0).unwrap().1 = 50;
    assert_eq!(map[page(0x5000)], 50);
    assert!(map.iter_mut(2).is_none());
    let (start, values) = map.chunks_mut(0).unwrap();
    assert_eq!(start, page(0x5000));
    assert_eq!(values, &mut [50, 60]);
    assert!(map.chunks_mut(1).is_none());
}

#[test]
fn single_pages_can_be_removed() {
    let mut map = PageMap::new();
    assert!(map.is_empty());
    map.insert_iter(page(0x5000), vec![5, 6, 7]);
    map.remove(page(0x6000));
    assert_eq!(map[page(0x5000)], 5);
    assert_eq!(map.get(page(0x6000)), None);
    assert_eq!(map[page(0x7000)], 7);
    assert_eq!(map.chunk_count(), 2);
    assert!(!map.is_empty());
}

#[test]
fn cursors_insert_one_page_after_the_other() {
    let mut map = PageMap::new();
    {
        let mut cursor = map.insert_many(page(0x1000));
        cursor.insert(1);
        cursor.insert(2);
        cursor.insert(3);
    }
    assert_eq!(map[page(0x1000)], 1);
    assert_eq!(map[page(0x2000)], 2);
    assert_eq!(map[page(0x3000)], 3);
    assert_eq!(map.chunk_count(), 1);
}

#[test]
fn removing_pages_again_changes_nothing() {
    let mut map = PageMap::new();
    map.insert_iter(page(0x1000), vec![1, 2, 3, 4]);
    map.insert_iter(page(0x7000), vec![7, 8]);
    map.remove_many(page(0x2000), 2);
    assert_eq!(map.chunk_count(), 3);
    map.remove_many(page(0x2000), 2);
    assert_eq!(map.chunk_count(), 3);
    let chunks = [(0x1000, vec![1]), (0x4000, vec![4]), (0x7000, vec![7, 8])];
    for (i, (start, values)) in chunks.iter().enumerate() {
        let (chunk, chunk_values) = map.chunks_mut(i).unwrap();
        assert_eq!(chunk, page(*start));
        assert_eq!(chunk_values, values.as_slice());
    }

    // Removing no pages divides a run.
    map.remove_many(page(0x8000), 0);
    assert_eq!(map.chunk_count(), 4);
    map.remove_many(page(0x8000), 0);
    assert_eq!(map.chunk_count(), 4);
    assert_eq!((map[page(0x7000)], map[page(0x8000)]), (7, 8));
}

#[test]
fn the_last_page_of_the_lower_half_is_kept_apart_from_the_upper_half() {
    let mut map = PageMap::new();
    map.insert(page(0x7fff_ffff_f000), 1);
    map.insert(page(0xffff_8000_0000_1000), 3);
    map.insert(page(0x7fff_ffff_f000), 2);
    assert_eq!(map[page(0x7fff_ffff_f000)], 2);
    assert_eq!(map[page(0xffff_8000_0000_1000)], 3);
    assert_eq!(map.chunk_count(), 2);

    let mut map = PageMap::new();
    map.insert(page(0x1000), 1);
    map.insert(page(0xffff_8000_0000_0000), 3);
    map.insert(page(0x7fff_ffff_f000), 2);
    assert_eq!(map[page(0x7fff_ffff_f000)], 2);
    assert_eq!(map[page(0xffff_8000_0000_0000)], 3);
    assert_eq!(map.chunk_count(), 3);
}
