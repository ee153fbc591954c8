use mushroom::addr::{Page, PhysFrame, VirtAddr};
use mushroom::error::Error;
use mushroom::memory::invlpgb::{
    hypercall_succeeded, Flush, HvCallFlushVirtualAddressSpaceFlags, Hypercall, InvlpgbCompat,
};
use mushroom::memory::page::{KernelPage, PageHeap, RangeBound, UserPage};
use mushroom::memory::pagetable::{Frame, PageTable, PageTableFlags, PresentPageTableEntry};
use mushroom::memory::temporary::{
    access_frame, copy_into_frame, copy_into_page_direct, get_fast_mapping, zero_frame, Access,
    Load, TemporaryMapping, TemporaryPages,
};
use mushroom::user::process::memory::mapping::MemoryPermissions;

fn page(address: u64) -> Page {
    Page::from_start_address(VirtAddr::new(address)).unwrap()
}

fn frame(address: u64) -> PhysFrame {
    PhysFrame::from_start_address(address).unwrap()
}

#[test]
fn pages_are_shared_until_they_are_modified() {
    let mut heap = PageHeap::new();
    let mut bytes = vec![0; 0x1000];
    bytes[7] = 7;
    let mut first = KernelPage::uninit(&mut heap, Some(0xffff_8080_0000_1000), bytes).unwrap();
    assert!(first.mutable());
    let mut second = first.clone(&mut heap, true).unwrap();
    assert!(!first.mutable() && !second.mutable());
    assert_eq!(second.address, first.address);

    assert_eq!(second.make_mut(&mut heap, Some(0xffff_8080_0000_2000)), Ok(()));
    assert!(second.mutable());
    assert_eq!(second.address, 0xffff_8080_0000_2000);
    assert_eq!(heap.copy_content(second.address), heap.copy_content(first.address));

    // The other page isn't shared any more.
    assert_eq!(first.make_mut(&mut heap, None), Ok(()));
    assert!(first.mutable());
    assert_eq!(first.address, 0xffff_8080_0000_1000);
}

#[test]
fn pages_need_memory() {
    let mut heap = PageHeap::new();
    assert_eq!(KernelPage::zeroed(&mut heap, None).err(), Some(Error::NoMem));
    let mut first = KernelPage::zeroed(&mut heap, Some(0x1000)).unwrap();
    assert_eq!(heap.copy_content(0x1000), vec![0; 0x1000]);
    assert_eq!(first.clone(&mut heap, false).err(), Some(Error::NoMem));
    assert!(first.mutable());
    let second = first.clone(&mut heap, true).unwrap();
    assert_eq!(first.make_mut(&mut heap, None), Err(Error::NoMem));
    assert!(!first.mutable());

    // Giving the copy up undoes its creation.
    assert_eq!(second.release(&mut heap), None);
    assert_eq!(first.make_mut(&mut heap, None), Ok(()));
    assert_eq!(first.release(&mut heap), Some(0x1000));
}

#[test]
fn content_is_copied_between_pages() {
    let mut heap = PageHeap::new();
    let first = KernelPage::uninit(&mut heap, Some(0x1000), vec![5; 0x1000]).unwrap();
    let mut second = KernelPage::zeroed(&mut heap, Some(0x2000)).unwrap();
    let bytes = second.content_make_mut(&mut heap, None).unwrap();
    bytes.copy_from(first.content(), &mut heap);
    assert_eq!(heap.copy_content(0x2000), vec![5; 0x1000]);
    assert_eq!(bytes.read_only().address, 0x2000);
}

#[test]
fn ranges_of_pages_have_an_address_and_a_length() {
    let mut heap = PageHeap::new();
    let page = KernelPage::zeroed(&mut heap, Some(0x5000)).unwrap();
    let bytes = page.content();
    let all = bytes.index(RangeBound::Unbounded, RangeBound::Unbounded);
    assert_eq!(all, (0x5000, 0x1000));
    assert_eq!(bytes.index(RangeBound::Included(4), RangeBound::Excluded(8)), (0x5004, 4));
    assert_eq!(bytes.index(RangeBound::Excluded(4), RangeBound::Included(8)), (0x5005, 4));
    assert_eq!(bytes.index(RangeBound::Included(8), RangeBound::Excluded(4)), (0x5008, 0));
}

#[test]
fn user_pages_are_only_writable_if_they_are_not_shared() {
    let mut heap = PageHeap::new();
    let page = KernelPage::zeroed(&mut heap, Some(0xffff_8080_0000_3000)).unwrap();
    let perms = MemoryPermissions { execute: true, write: true, read: true };
    let mut user = UserPage { perms, page };
    let (frame, flags) = user.entry();
    assert_eq!(frame.start_address(), 0x3000);
    assert!(flags.user && flags.writable && flags.executable);

    let other = user.page.clone(&mut heap, true).unwrap();
    assert!(!user.entry().1.writable);
    assert_eq!(other.frame().start_address(), 0x3000);
    assert_eq!(user.make_mut(&mut heap, Some(0xffff_8080_0000_4000)), Ok(()));
    assert!(user.entry().1.writable);
    assert_eq!(user.content().address, 0xffff_8080_0000_4000);
    assert!(user.content_make_mut(&mut heap, None).is_ok());

    let read = MemoryPermissions { execute: false, write: false, read: true };
    user.set_perms(read);
    assert_eq!(user.perms(), read);
    assert!(!user.entry().1.writable && !user.entry().1.executable);
}

#[test]
fn some_frames_are_always_mapped() {
    assert_eq!(get_fast_mapping(frame(0x0200_0000_0000)), Some(0xffff_8080_0000_0000));
    assert_eq!(get_fast_mapping(frame(0x02ff_ffff_f000)), Some(0xffff_817f_ffff_f000));
    assert_eq!(get_fast_mapping(frame(0x0300_0000_0000)), None);
    assert_eq!(get_fast_mapping(frame(0x01ff_ffff_f000)), None);
}

#[test]
fn frames_are_filled() {
    let mut memory = vec![1; 0x1000];
    zero_frame(&mut memory);
    assert_eq!(memory, vec![0; 0x1000]);
    let bytes: Vec<u8> = (0..0x1000).map(|i| i as u8).collect();
    copy_into_frame(&mut memory, &bytes);
    assert_eq!(memory, bytes);
}

#[test]
fn copies_depend_on_the_alignment() {
    assert_eq!(copy_into_page_direct(0x40, 0x1000), (Load::Aligned, 128));
    assert_eq!(copy_into_page_direct(0x41, 0x1000), (Load::Unaligned, 128));
}

#[test]
fn each_processor_has_a_temporary_page() {
    let mut pages = TemporaryPages { next: page(0x1_0000), left: 2 };
    let mut first = None;
    let mut second = None;
    let mapping = TemporaryMapping::new(frame(0x5000), &mut first, &mut pages);
    assert_eq!(mapping.page, page(0x1_0000));
    assert_eq!(mapping.as_mut_ptr(), 0x1_0000);
    assert_eq!(mapping.frame, frame(0x5000));
    assert!(mapping.flags.writable && mapping.flags.local && !mapping.flags.user);
    assert_eq!(first, Some(page(0x1_0000)));

    let mapping = TemporaryMapping::new(frame(0x6000), &mut second, &mut pages);
    assert_eq!(mapping.page, page(0x1_1000));
    assert_eq!(pages.left, 0);
    let mapping = TemporaryMapping::new(frame(0x7000), &mut first, &mut pages);
    assert_eq!(mapping.page, page(0x1_0000));
}

#[test]
fn frames_are_accessed_directly_if_possible() {
    let mut pages = TemporaryPages { next: page(0x1_0000), left: 1 };
    let mut per_cpu = None;
    let access = access_frame(frame(0x0200_0000_1000), &mut per_cpu, &mut pages);
    assert_eq!(access, Access::Direct(0xffff_8080_0000_1000));
    assert_eq!(per_cpu, None);
    match access_frame(frame(0x1000), &mut per_cpu, &mut pages) {
        Access::Temporary(mapping) => assert_eq!(mapping.page, page(0x1_0000)),
        Access::Direct(_) => unreachable!(),
    }
    assert_eq!(pages.left, 0);
}

#[test]
fn the_processor_flushes_translations_if_it_can() {
    let flusher = InvlpgbCompat::new(true);
    assert_eq!(flusher.flush_pcid(5), Flush::Pcid(5));
    assert_eq!(
        flusher.flush_page(page(0x1000), true),
        Flush::Pages { start: page(0x1000), end: page(0x2000), global: true }
    );
    assert_eq!(
        flusher.flush_page(page(0x7fff_ffff_f000), false),
        Flush::Pages {
            start: page(0x7fff_ffff_f000),
            end: page(0xffff_8000_0000_0000),
            global: false,
        }
    );
}

#[test]
fn the_hypervisor_flushes_translations_otherwise() {
    let request = Flush::Hypervisor(Hypercall {
        input: 0x1_0002,
        flags: HvCallFlushVirtualAddressSpaceFlags { bits: 3 },
    });
    let flusher = InvlpgbCompat::new(false);
    assert_eq!(flusher.flush_pcid(5), request);
    assert_eq!(flusher.flush_page(page(0xffff_ffff_ffff_f000), true), request);
    assert!(hypercall_succeeded(0));
    assert!(hypercall_succeeded(0xabcd_0000));
    assert!(!hypercall_succeeded(0x1_0002));
}

#[test]
fn page_tables_hold_entries() {
    let mut table = PageTable::new();
    let mut flags = PageTableFlags::empty();
    flags.user = true;
    table.map_page(page(0x1000), PresentPageTableEntry::new(Frame::zeroed(), flags));
    assert!(table.is_present(page(0x1000)));
    assert!(table.find_dirty_userspace_pages().is_empty());

    let mut writable = PageTableFlags::empty();
    writable.writable = true;
    table.add_flags(page(0x1000), writable);
    assert!(table.flags(page(0x1000)).unwrap().writable);
    table.write(page(0x1000), 0xffe, 2, &[1, 2, 3], 1);
    let mut buf = [9; 4];
    table.read(page(0x1000), 0xffd, 3, &mut buf, 1);
    assert_eq!(buf, [9, 0, 2, 3]);
    assert_eq!(table.find_dirty_userspace_pages(), [0x1000]);

    table.remove_flags(page(0x1000), writable);
    assert!(!table.flags(page(0x1000)).unwrap().writable);
    assert!(table.flags(page(0x1000)).unwrap().user);
    table.unmap_page(page(0x1000));
    assert_eq!(table.flags(page(0x1000)), None);
    table.remove_flags(page(0x1000), writable);
    assert!(!table.is_present(page(0x1000)));
}
