use mushroom::addr::{Page, PhysFrame, VirtAddr};
use mushroom::error::Error;
use mushroom::fs::node::FileSnapshot;
use mushroom::user::process::memory::mapping::MemoryPermissions;
use mushroom::user::process::memory::{
    do_virtual_memory_op, ActiveVirtualMemory, PageFaultOutcome, PendingVirtualMemoryOperations,
    Root, VirtualMemory, VirtualMemoryActivator, CAUSED_BY_WRITE, INSTRUCTION_FETCH,
    PROTECTION_VIOLATION,
};
use mushroom::user::process::syscall::args::ProtFlags;

const RW: MemoryPermissions = MemoryPermissions { execute: false, write: true, read: true };
const RO: MemoryPermissions = MemoryPermissions { execute: false, write: false, read: true };
const RX: MemoryPermissions = MemoryPermissions { execute: true, write: false, read: true };

fn frame(address: u64) -> PhysFrame {
    PhysFrame::from_start_address(address).unwrap()
}

fn address_space() -> VirtualMemory {
    let mut counter = 1;
    VirtualMemory::new(&mut counter, frame(0x1000))
}

fn page(address: u64) -> Page {
    Page::from_start_address(VirtAddr::new(address)).unwrap()
}

fn read(vm: &mut ActiveVirtualMemory<'_>, address: u64, len: usize) -> Result<Vec<u8>, Error> {
    let mut bytes = vec![0xaa; len];
    vm.read(VirtAddr::new(address), &mut bytes)?;
    Ok(bytes)
}

fn numbers(len: usize) -> Vec<u8> {
    (0..len).map(|i| (i % 251) as u8).collect()
}

#[test]
fn written_memory_is_read_back() {
    let mut space = address_space();
    let mut vm = ActiveVirtualMemory { virtual_memory: &mut space };
    let res = vm.mmap_zero(Some(VirtAddr::new(0x1_0000)), 0x3000, RW);
    assert_eq!(res, Ok(VirtAddr::new(0x1_0000)));

    assert_eq!(vm.write(VirtAddr::new(0x1_0ffe), &[1, 2, 3, 4]), Ok(()));

    assert_eq!(read(&mut vm, 0x1_0ffe, 4), Ok(vec![1, 2, 3, 4]));
    assert_eq!(read(&mut vm, 0x1_0ffc, 8), Ok(vec![0, 0, 1, 2, 3, 4, 0, 0]));
    assert_eq!(read(&mut vm, 0x1_0000, 0), Ok(vec![]));

    let long = numbers(0x2800);
    assert_eq!(vm.write(VirtAddr::new(0x1_0400), &long), Ok(()));
    assert_eq!(read(&mut vm, 0x1_0400, 0x2800), Ok(long));
}

#[test]
fn memory_that_is_not_mapped_faults() {
    let mut space = address_space();
    let mut vm = ActiveVirtualMemory { virtual_memory: &mut space };
    assert_eq!(read(&mut vm, 0x1_0000, 1), Err(Error::Fault));
    assert_eq!(vm.write(VirtAddr::new(0x1_0000), &[1]), Err(Error::Fault));
    assert_eq!(vm.write(VirtAddr::new(0x1_0000), &[]), Ok(()));

    vm.mmap_zero(Some(VirtAddr::new(0x1_0000)), 0x1000, RW).unwrap();
    assert_eq!(read(&mut vm, 0x1_0000, 1), Ok(vec![0]));
    assert_eq!(read(&mut vm, 0x1_0fff, 2), Err(Error::Fault));
}

#[test]
fn an_access_that_faults_has_been_done_up_to_the_page() {
    let mut space = address_space();
    let mut vm = ActiveVirtualMemory { virtual_memory: &mut space };
    vm.mmap_zero(Some(VirtAddr::new(0x1_0000)), 0x1000, RW).unwrap();
    assert_eq!(vm.write(VirtAddr::new(0x1_0ffe), &[1, 2, 3]), Err(Error::Fault));
    assert_eq!(read(&mut vm, 0x1_0ffe, 2), Ok(vec![1, 2]));

    let mut bytes = [9; 4];
    assert_eq!(vm.read(VirtAddr::new(0x1_0ffe), &mut bytes), Err(Error::Fault));
    assert_eq!(bytes, [1, 2, 9, 9]);
}

#[test]
fn unmapping_keeps_the_other_pages() {
    let mut space = address_space();
    let mut vm = ActiveVirtualMemory { virtual_memory: &mut space };
    vm.mmap_zero(Some(VirtAddr::new(0x1_0000)), 0x3000, RW).unwrap();
    let content = numbers(0x3000);
    vm.write(VirtAddr::new(0x1_0000), &content).unwrap();

    vm.unmap(VirtAddr::new(0x1_1000), 0x1000);

    assert_eq!(read(&mut vm, 0x1_0000, 0x1000), Ok(content[..0x1000].to_vec()));
    assert_eq!(read(&mut vm, 0x1_1000, 1), Err(Error::Fault));
    assert_eq!(read(&mut vm, 0x1_1fff, 1), Err(Error::Fault));
    assert_eq!(read(&mut vm, 0x1_2000, 0x1000), Ok(content[0x2000..].to_vec()));
}

#[test]
fn pages_that_are_unmapped_in_part_are_kept() {
    let mut space = address_space();
    let mut vm = ActiveVirtualMemory { virtual_memory: &mut space };
    vm.mmap_zero(Some(VirtAddr::new(0x1_0000)), 0x3000, RW).unwrap();
    vm.unmap(VirtAddr::new(0x1_0001), 0x2000);
    assert_eq!(read(&mut vm, 0x1_0000, 1), Ok(vec![0]));
    assert_eq!(read(&mut vm, 0x1_1000, 1), Err(Error::Fault));
    assert_eq!(read(&mut vm, 0x1_2000, 1), Ok(vec![0]));
    vm.unmap(VirtAddr::new(0x1_2000), 0xfff);
    assert_eq!(read(&mut vm, 0x1_2000, 1), Ok(vec![0]));
}

#[test]
fn a_new_mapping_replaces_old_ones() {
    let mut space = address_space();
    let mut vm = ActiveVirtualMemory { virtual_memory: &mut space };
    vm.mmap_zero(Some(VirtAddr::new(0x1_0000)), 0x3000, RW).unwrap();
    vm.write(VirtAddr::new(0x1_0000), &[7; 0x3000]).unwrap();
    vm.mmap_zero(Some(VirtAddr::new(0x1_1000)), 0x1000, RO).unwrap();

    assert_eq!(read(&mut vm, 0x1_0fff, 3), Ok(vec![7, 0, 0]));
    assert_eq!(read(&mut vm, 0x1_1fff, 2), Ok(vec![0, 7]));
    assert_eq!(vm.write(VirtAddr::new(0x1_1000), &[1]), Err(Error::Fault));
    assert_eq!(vm.write(VirtAddr::new(0x1_2000), &[1]), Ok(()));
}

#[test]
fn permissions_are_checked() {
    let mut space = address_space();
    let mut vm = ActiveVirtualMemory { virtual_memory: &mut space };
    vm.mmap_zero(Some(VirtAddr::new(0x1_0000)), 0x1000, RO).unwrap();
    let none = MemoryPermissions { execute: false, write: false, read: false };
    vm.mmap_zero(Some(VirtAddr::new(0x2_0000)), 0x1000, none).unwrap();
    let write_only = MemoryPermissions { execute: false, write: true, read: false };
    vm.mmap_zero(Some(VirtAddr::new(0x3_0000)), 0x1000, write_only).unwrap();

    assert_eq!(read(&mut vm, 0x1_0000, 1), Ok(vec![0]));
    assert_eq!(vm.write(VirtAddr::new(0x1_0000), &[1]), Err(Error::Fault));
    assert_eq!(read(&mut vm, 0x2_0000, 1), Err(Error::Fault));
    assert_eq!(vm.write(VirtAddr::new(0x3_0000), &[1]), Err(Error::Fault));
}

#[test]
fn protection_can_be_overridden_once() {
    let mut space = address_space();
    let mut vm = ActiveVirtualMemory { virtual_memory: &mut space };
    vm.mmap_zero(Some(VirtAddr::new(0x1_0000)), 0x1000, RO).unwrap();
    let content = numbers(0x1000);

    assert_eq!(vm.force_write(page(0x1_0000), &content), Ok(()));
    assert_eq!(read(&mut vm, 0x1_0000, 0x1000), Ok(content.clone()));
    assert_eq!(vm.write(VirtAddr::new(0x1_0000), &[1]), Err(Error::Fault));
    assert_eq!(vm.force_write(page(0x2_0000), &content), Err(Error::Fault));
}

#[test]
fn revoked_permissions_are_gone() {
    let mut space = address_space();
    let mut vm = ActiveVirtualMemory { virtual_memory: &mut space };
    let prot = ProtFlags { read: true, write: false, execute: false };
    vm.mmap_zero(Some(VirtAddr::new(0x1_0000)), 0x4000, RW).unwrap();
    vm.write(VirtAddr::new(0x1_0000), &[7; 0x4000]).unwrap();

    assert_eq!(vm.mprotect(VirtAddr::new(0x1_0000), 0x1000, prot), Ok(()));

    assert_eq!(vm.write(VirtAddr::new(0x1_0000), &[1]), Err(Error::Fault));
    assert_eq!(vm.write(VirtAddr::new(0x1_1000), &[1]), Ok(()));
    assert_eq!(read(&mut vm, 0x1_0000, 2), Ok(vec![7, 7]));
}

#[test]
fn the_rest_of_a_mapping_is_protected_as_well_if_its_start_is_not() {
    let mut space = address_space();
    let mut vm = ActiveVirtualMemory { virtual_memory: &mut space };
    let prot = ProtFlags { read: true, write: false, execute: false };
    vm.mmap_zero(Some(VirtAddr::new(0x1_0000)), 0x4000, RW).unwrap();
    assert_eq!(vm.mprotect(VirtAddr::new(0x1_1000), 0x1000, prot), Ok(()));
    assert_eq!(vm.write(VirtAddr::new(0x1_0000), &[1]), Ok(()));
    assert_eq!(vm.write(VirtAddr::new(0x1_1000), &[1]), Err(Error::Fault));
    assert_eq!(vm.write(VirtAddr::new(0x1_2000), &[1]), Err(Error::Fault));
}

#[test]
fn only_the_first_mapping_is_protected() {
    let mut space = address_space();
    let mut vm = ActiveVirtualMemory { virtual_memory: &mut space };
    let prot = ProtFlags { read: true, write: false, execute: false };
    vm.mmap_zero(Some(VirtAddr::new(0x1_2000)), 0x1000, RW).unwrap();
    vm.mmap_zero(Some(VirtAddr::new(0x1_1000)), 0x1000, RW).unwrap();
    assert_eq!(vm.mprotect(VirtAddr::new(0x1_0000), 0x4000, prot), Ok(()));
    assert_eq!(vm.write(VirtAddr::new(0x1_1000), &[1]), Err(Error::Fault));
    assert_eq!(vm.write(VirtAddr::new(0x1_2000), &[1]), Ok(()));
}

#[test]
fn ranges_of_both_halves_are_protected() {
    let mut space = address_space();
    let mut vm = ActiveVirtualMemory { virtual_memory: &mut space };
    let prot = ProtFlags { read: true, write: false, execute: false };
    let upper = VirtAddr::new(0xffff_8000_0000_0000);
    vm.mmap_zero(Some(upper), 0x2000, RW).unwrap();
    assert_eq!(vm.mprotect(VirtAddr::new(0x1000), 0xffff_8000_0000_0000, prot), Ok(()));
    assert_eq!(vm.write(upper, &[1]), Err(Error::Fault));
    assert_eq!(vm.write(VirtAddr::new(0xffff_8000_0000_1000), &[1]), Ok(()));

    // Only the lower half is affected if the end has to be sign extended.
    vm.mmap_zero(Some(VirtAddr::new(0x7fff_ffff_d000)), 0x2000, RW).unwrap();
    assert_eq!(vm.mprotect(VirtAddr::new(0x7fff_ffff_e000), 0x4000, prot), Ok(()));
    assert_eq!(vm.write(VirtAddr::new(0x7fff_ffff_d000), &[1]), Ok(()));
    assert_eq!(vm.write(VirtAddr::new(0x7fff_ffff_e000), &[1]), Err(Error::Fault));
    assert_eq!(vm.write(VirtAddr::new(0xffff_8000_0000_1000), &[1]), Ok(()));
}

#[test]
fn protection_of_invalid_ranges_is_refused() {
    let mut space = address_space();
    let mut vm = ActiveVirtualMemory { virtual_memory: &mut space };
    let prot = ProtFlags { read: true, write: false, execute: false };
    assert_eq!(vm.mprotect(VirtAddr::new(0x1_0001), 0, prot), Ok(()));
    assert_eq!(vm.mprotect(VirtAddr::new(0x1_0001), 0x1000, prot), Err(Error::Inval));
    assert_eq!(vm.mprotect(VirtAddr::new(0x1_0000), 0x1001, prot), Err(Error::Inval));
    assert_eq!(vm.mprotect(VirtAddr::new(0x1_0000), 0x1000, prot), Err(Error::Fault));
}

#[test]
fn files_are_mapped() {
    let mut space = address_space();
    let mut vm = ActiveVirtualMemory { virtual_memory: &mut space };
    let content = numbers(0x2800);
    let file = FileSnapshot::new(content.clone());
    let address = Some(VirtAddr::new(0x2_0000));
    assert_eq!(vm.mmap_into(address, 0x2000, 0x1000, file, RW), Ok(VirtAddr::new(0x2_0000)));

    // The rest of the last page is zero.
    let mut expected = content[0x1000..].to_vec();
    expected.resize(0x2000, 0);
    assert_eq!(read(&mut vm, 0x2_0000, 0x2000), Ok(expected));
}

#[test]
fn unaligned_files_are_mapped() {
    let mut space = address_space();
    let mut vm = ActiveVirtualMemory { virtual_memory: &mut space };
    let content = numbers(0x3000);
    let file = FileSnapshot::new(content.clone());
    let address = Some(VirtAddr::new(0x2_0800));
    assert_eq!(vm.mmap_into(address, 0x2100, 0x10, file, RW), Ok(VirtAddr::new(0x2_0800)));

    assert_eq!(read(&mut vm, 0x2_0800, 0x2100), Ok(content[0x10..0x2110].to_vec()));
    assert_eq!(read(&mut vm, 0x2_0000, 0x800), Ok(vec![0; 0x800]));
    assert_eq!(read(&mut vm, 0x2_2900, 0x700), Ok(vec![0; 0x700]));
    assert_eq!(read(&mut vm, 0x2_3000, 1), Err(Error::Fault));
}

#[test]
fn mappings_inside_of_a_page_keep_the_rest_of_the_page() {
    let mut space = address_space();
    let mut vm = ActiveVirtualMemory { virtual_memory: &mut space };
    vm.mmap_zero(Some(VirtAddr::new(0x2_0000)), 0x1000, RW).unwrap();
    vm.write(VirtAddr::new(0x2_0000), &[7; 0x1000]).unwrap();
    let file = FileSnapshot::new(vec![1, 2, 3, 4]);
    vm.mmap_into(Some(VirtAddr::new(0x2_0801)), 3, 1, file, RO).unwrap();
    assert_eq!(read(&mut vm, 0x2_0800, 5), Ok(vec![7, 2, 3, 4, 7]));
}

#[test]
fn splitting_a_mapping_keeps_the_content_of_the_file() {
    let mut space = address_space();
    let mut vm = ActiveVirtualMemory { virtual_memory: &mut space };
    let content = numbers(0x3000);
    let file = FileSnapshot::new(content.clone());
    vm.mmap_into(Some(VirtAddr::new(0x2_0000)), 0x3000, 0, file, RO).unwrap();
    vm.unmap(VirtAddr::new(0x2_1000), 0x1000);
    assert_eq!(read(&mut vm, 0x2_2000, 0x1000), Ok(content[0x2000..].to_vec()));
    assert_eq!(read(&mut vm, 0x2_0000, 0x1000), Ok(content[..0x1000].to_vec()));
}

#[test]
fn static_files_are_copied_before_they_are_written_to() {
    let mut space = address_space();
    let mut vm = ActiveVirtualMemory { virtual_memory: &mut space };
    let content = numbers(0x2000);
    let file = FileSnapshot::new_static(content.clone(), 0xffff_8000_0000_0000);
    vm.mmap_into(Some(VirtAddr::new(0x2_0000)), 0x2000, 0, file.clone(), RW).unwrap();
    vm.mmap_into(Some(VirtAddr::new(0x3_0000)), 0x2000, 0, file.clone(), RO).unwrap();

    assert_eq!(read(&mut vm, 0x2_0000, 0x2000), Ok(content.clone()));
    assert_eq!(vm.write(VirtAddr::new(0x2_0000), &[0xff; 4]), Ok(()));

    assert_eq!(read(&mut vm, 0x2_0000, 4), Ok(vec![0xff; 4]));
    assert_eq!(read(&mut vm, 0x2_0004, 4), Ok(content[4..8].to_vec()));
    assert_eq!(read(&mut vm, 0x3_0000, 0x2000), Ok(content.clone()));
    assert_eq!(file.get(0), content[0]);
}

#[test]
fn a_copy_is_deep() {
    let mut counter = 4094;
    let mut space = VirtualMemory::new(&mut counter, frame(0x1000));
    let file = FileSnapshot::new(numbers(0x1000));
    {
        let mut vm = ActiveVirtualMemory { virtual_memory: &mut space };
        vm.mmap_zero(Some(VirtAddr::new(0x1_0000)), 0x2000, RW).unwrap();
        vm.mmap_into(Some(VirtAddr::new(0x2_0000)), 0x1000, 0, file, RO).unwrap();
        vm.write(VirtAddr::new(0x1_0ffe), &[1, 2, 3, 4]).unwrap();
    }
    let mut copy = space.clone(&mut counter, frame(0x2000)).unwrap();
    assert_eq!(counter, 4096);

    let mut vm = ActiveVirtualMemory { virtual_memory: &mut copy };
    assert_eq!(read(&mut vm, 0x1_0ffe, 4), Ok(vec![1, 2, 3, 4]));
    assert_eq!(read(&mut vm, 0x2_0000, 0x1000), Ok(numbers(0x1000)));
    vm.write(VirtAddr::new(0x1_0ffe), &[9]).unwrap();
    assert_eq!(vm.write(VirtAddr::new(0x2_0000), &[9]), Err(Error::Fault));

    let mut vm = ActiveVirtualMemory { virtual_memory: &mut space };
    assert_eq!(read(&mut vm, 0x1_0ffe, 4), Ok(vec![1, 2, 3, 4]));
}

#[test]
fn memory_that_was_written_but_can_no_longer_be_read_is_not_copied() {
    let mut counter = 1;
    let mut space = VirtualMemory::new(&mut counter, frame(0x1000));
    {
        let mut vm = ActiveVirtualMemory { virtual_memory: &mut space };
        vm.mmap_zero(Some(VirtAddr::new(0x1_0000)), 0x1000, RW).unwrap();
        vm.write(VirtAddr::new(0x1_0000), &[1]).unwrap();
        let none = ProtFlags { read: false, write: false, execute: false };
        vm.mprotect(VirtAddr::new(0x1_0000), 0x1000, none).unwrap();
        assert_eq!(vm.find_dirty_userspace_pages().err(), Some(Error::Fault));
    }
    assert_eq!(space.clone(&mut counter, frame(0x2000)).err(), Some(Error::Fault));
}

#[test]
fn dirty_pages_are_found_in_order() {
    let mut space = address_space();
    let mut vm = ActiveVirtualMemory { virtual_memory: &mut space };
    vm.mmap_zero(Some(VirtAddr::new(0x1_0000)), 0x4000, RW).unwrap();
    vm.write(VirtAddr::new(0x1_3000), &[3]).unwrap();
    vm.write(VirtAddr::new(0x1_1000), &[1]).unwrap();
    read(&mut vm, 0x1_2000, 1).unwrap();

    let pages = vm.find_dirty_userspace_pages().unwrap();
    assert_eq!(pages.len(), 2);
    assert_eq!(pages[0].0, page(0x1_1000));
    assert_eq!(pages[0].1[0], 1);
    assert_eq!(pages[0].1.len(), 0x1000);
    assert_eq!(pages[1].0, page(0x1_3000));
    assert_eq!(pages[1].1[0], 3);
}

#[test]
fn strings_end_with_zero() {
    let mut space = address_space();
    let mut vm = ActiveVirtualMemory { virtual_memory: &mut space };
    vm.mmap_zero(Some(VirtAddr::new(0x1_0000)), 0x2000, RW).unwrap();
    vm.write(VirtAddr::new(0x1_0ffd), b"hello\0").unwrap();

    assert_eq!(vm.read_cstring(VirtAddr::new(0x1_0ffd), 5), Ok(b"hello".to_vec()));
    assert_eq!(vm.read_cstring(VirtAddr::new(0x1_0ffd), 4), Err(Error::NameTooLong));
    assert_eq!(vm.read_cstring(VirtAddr::new(0x1_0000), 0), Ok(vec![]));
    assert_eq!(vm.read_path(VirtAddr::new(0x1_0ffd)), Ok(b"hello".to_vec()));
}

#[test]
fn strings_without_an_end_fault() {
    let mut space = address_space();
    let mut vm = ActiveVirtualMemory { virtual_memory: &mut space };
    vm.mmap_zero(Some(VirtAddr::new(0x1_0000)), 0x1000, RW).unwrap();
    vm.write(VirtAddr::new(0x1_0ffe), b"ab").unwrap();
    assert_eq!(vm.read_cstring(VirtAddr::new(0x1_0ffe), 10), Err(Error::Fault));
    // The string is too long only if there is a byte after it.
    assert_eq!(vm.read_cstring(VirtAddr::new(0x1_0ffe), 2), Err(Error::Fault));
}

#[test]
fn paths_have_a_maximum_length() {
    let mut space = address_space();
    let mut vm = ActiveVirtualMemory { virtual_memory: &mut space };
    vm.mmap_zero(Some(VirtAddr::new(0x1_0000)), 0x2000, RW).unwrap();
    vm.write(VirtAddr::new(0x1_0000), &[b'a'; 0x1001]).unwrap();
    assert_eq!(vm.read_path(VirtAddr::new(0x1_0000)), Err(Error::NameTooLong));
    assert_eq!(vm.read_path(VirtAddr::new(0x1_0001)), Ok(vec![b'a'; 0x1000]));
}

#[test]
fn page_faults_are_handled() {
    let mut space = address_space();
    {
        let mut vm = ActiveVirtualMemory { virtual_memory: &mut space };
        vm.mmap_zero(Some(VirtAddr::new(0x1_0000)), 0x1000, RW).unwrap();
        vm.mmap_zero(Some(VirtAddr::new(0x2_0000)), 0x1000, RX).unwrap();
    }
    const USER: u64 = 4;
    assert_eq!(space.handle_page_fault(0x1_0123, 0), PageFaultOutcome::Handled);
    assert_eq!(space.handle_page_fault(0x1_0123, USER), PageFaultOutcome::Handled);
    assert_eq!(
        space.handle_page_fault(0x1_0123, CAUSED_BY_WRITE | USER),
        PageFaultOutcome::Handled
    );
    assert_eq!(
        space.handle_page_fault(0x1_0123, CAUSED_BY_WRITE | PROTECTION_VIOLATION | USER),
        PageFaultOutcome::Handled
    );
    assert_eq!(
        space.handle_page_fault(0x1_0123, INSTRUCTION_FETCH | USER),
        PageFaultOutcome::Denied
    );
    assert_eq!(
        space.handle_page_fault(0x2_0000, INSTRUCTION_FETCH | USER),
        PageFaultOutcome::Handled
    );
    assert_eq!(
        space.handle_page_fault(0x2_0000, CAUSED_BY_WRITE | USER),
        PageFaultOutcome::Denied
    );
    assert_eq!(space.handle_page_fault(0x3_0000, 0), PageFaultOutcome::NotMapped);
    assert_eq!(
        space.handle_page_fault(0x1_0000, PROTECTION_VIOLATION),
        PageFaultOutcome::Unsupported
    );
    // The address is sign extended.
    assert_eq!(space.handle_page_fault(0x8000_0000_0000, 0), PageFaultOutcome::NotMapped);
    // A bit that has no meaning is ignored.
    assert_eq!(space.handle_page_fault(0x1_0000, 1 << 40), PageFaultOutcome::Handled);
}

#[test]
fn free_addresses_are_found() {
    let mut space = address_space();
    let mut vm = ActiveVirtualMemory { virtual_memory: &mut space };
    match vm.mmap_zero(None, 0x2000, RW) {
        Ok(address) => {
            let address = address.as_u64();
            assert_eq!(address % 0x1000, 0);
            assert!(address + 0x2000 < 0x8000_0000_0000);
            assert_eq!(read(&mut vm, address, 0x2000), Ok(vec![0; 0x2000]));
        }
        // The processor has no random numbers.
        Err(err) => assert_eq!(err, Error::NoMem),
    }
}

#[test]
fn stacks_are_readable_and_writable() {
    let mut space = address_space();
    let mut vm = ActiveVirtualMemory { virtual_memory: &mut space };
    let res = vm.allocate_stack(Some(VirtAddr::new(0x7000_0000)), 0x2_0000);
    assert_eq!(res, Ok(VirtAddr::new(0x7000_0000)));
    assert_eq!(vm.write(VirtAddr::new(0x7001_fff8), &[1; 8]), Ok(()));
    assert_eq!(read(&mut vm, 0x7001_fff0, 16), Ok(vec![0, 0, 0, 0, 0, 0, 0, 0, 1, 1, 1, 1, 1, 1, 1, 1]));
}

#[test]
fn the_root_is_restored() {
    let mut counter = 7;
    let mut space = VirtualMemory::new(&mut counter, frame(0x5000));
    assert_eq!(counter, 8);
    let kernel = Root { pml4: frame(0x1000), pcid: 0 };
    let mut activator = VirtualMemoryActivator::new(kernel);
    let root = activator.activate(&mut space, |vm: &mut ActiveVirtualMemory<'_>, root: Root| {
        vm.mmap_zero(Some(VirtAddr::new(0x1_0000)), 0x1000, RW).unwrap();
        root
    });
    assert_eq!(root.pml4, frame(0x5000));
    assert_eq!(root.pcid, 7);
    assert_eq!(activator.root.pml4, frame(0x1000));
    assert_eq!(activator.root.pcid, 0);

    let mut vm = ActiveVirtualMemory { virtual_memory: &mut space };
    assert_eq!(read(&mut vm, 0x1_0000, 1), Ok(vec![0]));
}

#[test]
fn operations_are_executed_in_order() {
    let mut pending = PendingVirtualMemoryOperations::new();
    assert_eq!(do_virtual_memory_op(&mut pending), None);
    pending.push(3);
    pending.push(1);
    assert_eq!(do_virtual_memory_op(&mut pending), Some(3));
    pending.push(2);
    assert_eq!(do_virtual_memory_op(&mut pending), Some(1));
    assert_eq!(do_virtual_memory_op(&mut pending), Some(2));
    assert_eq!(do_virtual_memory_op(&mut pending), None);
}

#[test]
fn pages_past_the_end_of_a_file_can_not_be_brought_in() {
    let mut space = address_space();
    {
        let mut vm = ActiveVirtualMemory { virtual_memory: &mut space };
        let file = FileSnapshot::new(numbers(0x1800));
        vm.mmap_into(Some(VirtAddr::new(0x2_0000)), 0x4000, 0, file, RO).unwrap();
    }
    assert!(space.can_access(false, VirtAddr::new(0x2_0000), 0x2000));
    assert!(!space.can_access(false, VirtAddr::new(0x2_0000), 0x2001));
    assert!(!space.can_access(false, VirtAddr::new(0x2_3fff), 1));
    assert!(space.can_access(false, VirtAddr::new(0x2_4000), u64::MAX));
    // Nothing is brought in for nothing.
    assert!(space.can_access(false, VirtAddr::new(0x2_3fff), 0));
    // The access ends before the file.
    assert!(space.can_access(false, VirtAddr::new(0), u64::MAX));
    assert!(space.can_access(true, VirtAddr::new(0x2_3fff), 1));

    let mut vm = ActiveVirtualMemory { virtual_memory: &mut space };
    assert_eq!(read(&mut vm, 0x1_ffff, 0x4000), Err(Error::Fault));
    assert_eq!(read(&mut vm, 0x2_3000, 0), Ok(vec![]));
    assert_eq!(vm.write(VirtAddr::new(0x2_3000), &[1]), Err(Error::Fault));
    assert_eq!(vm.write(VirtAddr::new(0x2_3000), &[]), Ok(()));
}

#[test]
fn pages_past_the_end_of_a_static_file_can_not_be_brought_in() {
    let mut space = address_space();
    {
        let mut vm = ActiveVirtualMemory { virtual_memory: &mut space };
        let file = FileSnapshot::new_static(numbers(0x1800), 0xffff_8000_0000_0000);
        vm.mmap_into(Some(VirtAddr::new(0x2_0000)), 0x2000, 0, file, RO).unwrap();
    }
    assert!(space.can_access(false, VirtAddr::new(0x2_0000), 0x1000));
    assert!(!space.can_access(false, VirtAddr::new(0x2_1000), 1));
}

#[test]
fn unmapping_undoes_mapping() {
    let mut space = address_space();
    let mut vm = ActiveVirtualMemory { virtual_memory: &mut space };
    vm.mmap_zero(Some(VirtAddr::new(0x1_0000)), 0x1000, RW).unwrap();
    vm.mmap_zero(Some(VirtAddr::new(0x1_3000)), 0x1000, RW).unwrap();
    vm.write(VirtAddr::new(0x1_0000), &[1; 0x1000]).unwrap();
    vm.write(VirtAddr::new(0x1_3000), &[3; 0x1000]).unwrap();

    vm.mmap_zero(Some(VirtAddr::new(0x1_1000)), 0x2000, RW).unwrap();
    assert_eq!(read(&mut vm, 0x1_0fff, 2), Ok(vec![1, 0]));
    vm.unmap(VirtAddr::new(0x1_1000), 0x2000);

    assert_eq!(read(&mut vm, 0x1_0000, 0x1000), Ok(vec![1; 0x1000]));
    assert_eq!(read(&mut vm, 0x1_1000, 1), Err(Error::Fault));
    assert_eq!(read(&mut vm, 0x1_2000, 1), Err(Error::Fault));
    assert_eq!(read(&mut vm, 0x1_3000, 0x1000), Ok(vec![3; 0x1000]));
}
