use mushroom::addr::{Page, PhysFrame, VirtAddr};

#[test]
fn addresses_are_sign_extended() {
    assert_eq!(VirtAddr::new(0x7fff_ffff_ffff).as_u64(), 0x7fff_ffff_ffff);
    assert_eq!(VirtAddr::new(0x8000_0000_0000).as_u64(), 0xffff_8000_0000_0000);
    assert_eq!(VirtAddr::new(0xffff_8000_0000_0000).as_u64(), 0xffff_8000_0000_0000);
    assert!(VirtAddr::try_new(0x1_0000_0000_0000).is_none());
    assert!(VirtAddr::try_new(0xffff_7fff_ffff_ffff).is_none());
    assert!(VirtAddr::new(0).is_null());
    assert!(!VirtAddr::new(1).is_null());
}

#[test]
fn addresses_are_added_to() {
    let end = VirtAddr::new(0x7fff_ffff_ffff);
    assert_eq!(end.checked_add(1), Some(VirtAddr::new(0xffff_8000_0000_0000)));
    assert_eq!(VirtAddr::new(0xffff_ffff_ffff_ffff).checked_add(1), None);
    assert_eq!(VirtAddr::new(0xffff_8000_0000_0000).checked_add(0x10).unwrap().as_u64(), 0xffff_8000_0000_0010);
}

#[test]
fn the_hole_is_skipped() {
    let end = VirtAddr::new(0x7fff_ffff_ffff);
    assert_eq!(end.forward_checked(1), Some(VirtAddr::new(0xffff_8000_0000_0000)));
    assert_eq!(VirtAddr::new(0xffff_ffff_ffff_ffff).forward_checked(1), None);
    assert_eq!(VirtAddr::new(0).forward_checked(0x1_0000_0000_0000), None);
    assert_eq!(
        VirtAddr::new(0).forward_checked(0xffff_ffff_ffff),
        Some(VirtAddr::new(0xffff_ffff_ffff_ffff))
    );
    let page = Page::containing_address(end);
    assert_eq!(page.forward_checked(1).unwrap().start(), 0xffff_8000_0000_0000);
    assert_eq!(page.forward_checked(u64::MAX), None);
}

#[test]
fn pages_contain_addresses() {
    let addr = VirtAddr::new(0x1234_5678);
    let page = Page::containing_address(addr);
    assert_eq!(page.start(), 0x1234_5000);
    assert_eq!(page.start_address(), VirtAddr::new(0x1234_5000));
    assert_eq!(addr.page_offset(), 0x678);
    assert!(!addr.is_page_aligned());
    assert!(page.start_address().is_page_aligned());
    assert_eq!(Page::from_start_address(addr), None);
    assert_eq!(Page::from_start_address(page.start_address()), Some(page));
    assert_eq!(page.checked_add(2).unwrap().start(), 0x1234_7000);
    assert_eq!(page.checked_add(2).unwrap().distance_from(page), 2);
    assert_eq!(page.checked_add(u64::MAX), None);
}

#[test]
fn frames_are_aligned_and_in_range() {
    assert_eq!(PhysFrame::from_start_address(0x5000).unwrap().start_address(), 0x5000);
    assert!(PhysFrame::from_start_address(0x5001).is_none());
    assert!(PhysFrame::from_start_address(0x10_0000_0000_0000).is_none());
    assert!(PhysFrame::from_start_address(0xf_ffff_ffff_f000).is_some());
}
