use mushroom::addr::{Page, VirtAddr};
use mushroom::error::Error;
use mushroom::fs::node::FileSnapshot;
use mushroom::memory::pagetable::{PageTable, PageTableFlags};
use mushroom::user::process::memory::mapping::{Backing, FileBacking, Mapping, MemoryPermissions};
use mushroom::user::process::memory::state::{placement, Attempt, VirtualMemoryState};
use mushroom::user::process::syscall::args::ProtFlags;

const RW: MemoryPermissions = MemoryPermissions { execute: false, write: true, read: true };

fn page(address: u64) -> Page {
    Page::from_start_address(VirtAddr::new(address)).unwrap()
}

fn mapping(start: u64, num_pages: u64) -> Mapping {
    Mapping { start: page(start), num_pages, permissions: RW, backing: Backing::Zero }
}

#[test]
fn permissions_have_bits() {
    assert_eq!(RW.bits(), 6);
    let prot = ProtFlags { read: false, write: false, execute: true };
    let permissions = MemoryPermissions::from(prot);
    assert_eq!(permissions.bits(), 1);
    assert_eq!(permissions.union(RW).bits(), 7);
    assert_eq!(permissions.union(RW).difference(RW).bits(), 1);
}

#[test]
fn permissions_become_flags() {
    let all = MemoryPermissions { execute: true, write: true, read: true };
    let flags = PageTableFlags::from(all);
    assert!(flags.executable && flags.writable);
    assert!(!flags.user && !flags.cow && !flags.global && !flags.local);
    let read = MemoryPermissions { execute: false, write: false, read: true };
    assert!(PageTableFlags::from(read).is_empty());
}

#[test]
fn mappings_contain_their_pages() {
    let m = mapping(0x1_0000, 2);
    assert_eq!(m.end(), page(0x1_2000));
    assert!(!m.contains(VirtAddr::new(0xffff)));
    assert!(m.contains(VirtAddr::new(0x1_0000)));
    assert!(m.contains(VirtAddr::new(0x1_1fff)));
    assert!(!m.contains(VirtAddr::new(0x1_2000)));
    assert!(m.contains_page(page(0x1_1000)));
    assert!(!m.contains_page(page(0x1_2000)));
}

#[test]
fn mappings_overlap_ranges() {
    let m = mapping(0x1_0000, 2);
    assert!(!m.contains_range(VirtAddr::new(0x1_0000), 0));
    assert!(!m.contains_range(VirtAddr::new(0xf000), 0x1000));
    assert!(m.contains_range(VirtAddr::new(0xf000), 0x1001));
    assert!(m.contains_range(VirtAddr::new(0xf000), 0x10_0000));
    assert!(m.contains_range(VirtAddr::new(0x1_1fff), 1));
    assert!(!m.contains_range(VirtAddr::new(0x1_2000), 1));
    assert!(!m.contains_page_range(page(0x1_0000), 0));
    assert!(!m.contains_page_range(page(0xf000), 1));
    assert!(m.contains_page_range(page(0xf000), 2));
    assert!(m.contains_page_range(page(0xf000), 100));
    assert!(!m.contains_page_range(page(0x1_2000), 1));
}

#[test]
fn splitting_moves_the_offset_by_bytes() {
    let bytes = FileSnapshot::new(vec![0; 0x4000]);
    let mut first = Mapping {
        start: page(0x1_0000),
        num_pages: 3,
        permissions: RW,
        backing: Backing::File(FileBacking { offset: 0x800, bytes }),
    };
    let second = first.split(1);
    assert_eq!(first.start, page(0x1_0000));
    assert_eq!(first.num_pages, 1);
    assert_eq!(second.start, page(0x1_1000));
    assert_eq!(second.num_pages, 2);
    assert_eq!(second.permissions, RW);
    match (first.backing, second.backing) {
        (Backing::File(first), Backing::File(second)) => {
            assert_eq!(first.offset, 0x800);
            assert_eq!(second.offset, 0x1800);
        }
        _ => unreachable!(),
    }
}

#[test]
fn initial_memory_is_copied() {
    let bytes = FileSnapshot::new(vec![1, 2, 3, 4, 5]);
    let backing = Backing::File(FileBacking { offset: 1, bytes });
    let mut buf = [9; 3];
    backing.copy_initial_memory_to_slice(1, &mut buf);
    assert_eq!(buf, [3, 4, 5]);
    Backing::Stack.copy_initial_memory_to_slice(7, &mut buf);
    assert_eq!(buf, [0, 0, 0]);
}

#[test]
fn pages_are_brought_in() {
    let m = mapping(0x1_0000, 1);
    let mut table = PageTable::new();
    assert!(!table.is_present(page(0x1_0000)));
    assert_eq!(m.make_readable(page(0x1_0000), &mut table), Ok(()));
    let flags = table.flags(page(0x1_0000)).unwrap();
    assert!(flags.user && flags.writable && !flags.executable && !flags.cow);
    assert_eq!(m.make_executable(page(0x1_0000), &mut table), Err(Error::Fault));
    assert_eq!(m.make_writable(page(0x1_0000), &mut table), Ok(()));
}

#[test]
fn static_pages_are_shared_until_they_are_written_to() {
    let bytes = FileSnapshot::new_static(vec![5; 0x1000], 0xffff_8000_0000_0000);
    let m = Mapping {
        start: page(0x1_0000),
        num_pages: 1,
        permissions: MemoryPermissions { execute: true, write: true, read: true },
        backing: Backing::File(FileBacking { offset: 0, bytes }),
    };
    let mut table = PageTable::new();
    assert_eq!(m.make_readable(page(0x1_0000), &mut table), Ok(()));
    let flags = table.flags(page(0x1_0000)).unwrap();
    assert!(flags.user && flags.cow && flags.executable && !flags.writable);

    assert_eq!(m.make_writable(page(0x1_0000), &mut table), Ok(()));
    let flags = table.flags(page(0x1_0000)).unwrap();
    assert!(!flags.cow && flags.writable);
    let mut buf = [0; 4];
    table.read(page(0x1_0000), 0xffc, 4, &mut buf, 0);
    assert_eq!(buf, [5; 4]);
}

#[test]
fn candidates_are_aligned_and_in_the_lower_half() {
    let mut state = VirtualMemoryState::new();
    let candidate = state.candidate_address(0xffff_0000_1234_5678, 0x1000);
    assert_eq!(candidate, Some(VirtAddr::new(0x1234_5000)));

    state.push(mapping(0x1234_6000, 1));
    assert_eq!(
        state.candidate_address(0x1234_5678, 0x1000),
        Some(VirtAddr::new(0x1234_5000))
    );
    assert_eq!(state.candidate_address(0x1234_5678, 0x1001), None);
    assert_eq!(state.candidate_address(0x1234_6000, 0x1000), None);
    assert_eq!(state.find(page(0x1234_6000)), Some(0));
    assert_eq!(state.find(page(0x1234_5000)), None);
}

#[test]
fn candidates_may_reach_the_end_of_the_lower_half() {
    let mut state = VirtualMemoryState::new();
    let start = VirtAddr::new(0x7fff_ffff_e000);
    assert_eq!(state.candidate_address(0x7fff_ffff_e000, 0x1800), Some(start));
    assert_eq!(state.candidate_address(0x7fff_ffff_e000, 0x2001), Some(start));

    // The end of the range is sign extended.
    state.push(mapping(0xffff_8000_0000_0000, 1));
    assert_eq!(state.candidate_address(0x7fff_ffff_e000, 0x2000), Some(start));
    assert_eq!(state.candidate_address(0x7fff_ffff_e000, 0x2001), None);
}

#[test]
fn mappings_are_placed_before_the_last_page_of_the_lower_half() {
    let start = VirtAddr::new(0x7fff_ffff_e000);
    assert_eq!(placement(start, 0x1000, 63), Attempt::Found(start));
    assert_eq!(placement(start, 0x1001, 0), Attempt::Again(1));
    assert_eq!(placement(start, 0x1001, 63), Attempt::GiveUp);
}

#[test]
fn both_parts_of_a_stack_are_stacks() {
    let mut stack = Mapping {
        start: page(0x1_0000),
        num_pages: 3,
        permissions: RW,
        backing: Backing::Stack,
    };
    let rest = stack.split(1);
    assert!(matches!(stack.backing, Backing::Stack));
    assert!(matches!(rest.backing, Backing::Stack));
    let mut zero = Backing::Zero;
    assert!(matches!(zero.split(0x1000), Backing::Zero));
    assert!(matches!(zero, Backing::Zero));
}

#[test]
fn a_free_address_is_searched_for_a_number_of_times() {
    let mut state = VirtualMemoryState::new();
    state.push(mapping(0x1234_6000, 1));

    assert_eq!(
        state.attempt(0, Some(0x1234_5678), 0x1000),
        Attempt::Found(VirtAddr::new(0x1234_5000))
    );
    assert_eq!(
        state.attempt(63, Some(0x1234_5678), 0x1000),
        Attempt::Found(VirtAddr::new(0x1234_5000))
    );
    assert_eq!(state.attempt(0, Some(0x1234_6000), 0x1000), Attempt::Again(1));
    assert_eq!(state.attempt(62, None, 0x1000), Attempt::Again(63));
    assert_eq!(state.attempt(63, None, 0x1000), Attempt::GiveUp);
    assert_eq!(state.attempt(63, Some(0x1234_6000), 0x1000), Attempt::GiveUp);
}

#[test]
fn state_is_unmapped_and_cloned() {
    let mut state = VirtualMemoryState::new();
    let mut table = PageTable::new();
    state.push(mapping(0x1_0000, 3));
    let copy = state.clone();
    state.unmap(VirtAddr::new(0x1_1000), 0x1000, &mut table);
    assert_eq!(state.mappings.len(), 2);
    assert_eq!(state.find(page(0x1_1000)), None);
    assert_eq!(copy.mappings.len(), 1);
    assert_eq!(copy.find(page(0x1_1000)), Some(0));
}

#[test]
fn ranges_of_both_halves_are_unmapped() {
    let mut state = VirtualMemoryState::new();
    let mut table = PageTable::new();
    state.push(mapping(0x1_0000, 2));
    state.push(mapping(0xffff_8000_0000_0000, 3));
    state.unmap(VirtAddr::new(0x1_1000), 0xffff_7fff_ffff_0000, &mut table);
    assert_eq!(state.mappings.len(), 2);
    assert!(state.find(page(0x1_0000)).is_some());
    assert_eq!(state.find(page(0x1_1000)), None);
    assert_eq!(state.find(page(0xffff_8000_0000_0000)), None);
    assert!(state.find(page(0xffff_8000_0000_1000)).is_some());

    // The end is sign extended.
    state.unmap(VirtAddr::new(0x7fff_ffff_f000), 0x3000, &mut table);
    assert_eq!(state.find(page(0xffff_8000_0000_1000)), None);
    assert!(state.find(page(0xffff_8000_0000_2000)).is_some());
}
