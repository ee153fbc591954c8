use mushroom::addr::{PhysFrame, VirtAddr};
use mushroom::error::Error;
use mushroom::user::process::futex::{check_value, wait_outcome, FutexWaiter, Futexes};
use mushroom::user::process::memory::mapping::MemoryPermissions;
use mushroom::user::process::memory::{ActiveVirtualMemory, VirtualMemory};

const RW: MemoryPermissions = MemoryPermissions { execute: false, write: true, read: true };

fn address_space() -> VirtualMemory {
    let mut counter = 1;
    let mut space = VirtualMemory::new(&mut counter, PhysFrame::from_start_address(0).unwrap());
    let mut vm = ActiveVirtualMemory { virtual_memory: &mut space };
    vm.mmap_zero(Some(VirtAddr::new(0x1_0000)), 0x2000, RW).unwrap();
    space
}

#[test]
fn values_are_compared() {
    let mut space = address_space();
    let mut vm = ActiveVirtualMemory { virtual_memory: &mut space };
    // The value is in two pages.
    let uaddr = VirtAddr::new(0x1_0ffe);
    vm.write(uaddr, &0x0102_0304u32.to_le_bytes()).unwrap();
    assert_eq!(check_value(&mut vm, uaddr, 0x0102_0304), Ok(()));
    assert_eq!(check_value(&mut vm, uaddr, 0x0403_0201), Err(Error::Again));
    assert_eq!(check_value(&mut vm, VirtAddr::new(0x1_1ffe), 0), Err(Error::Fault));
}

#[test]
fn threads_only_wait_for_the_value() {
    let mut space = address_space();
    let mut vm = ActiveVirtualMemory { virtual_memory: &mut space };
    let mut futexes = Futexes::new();
    let uaddr = VirtAddr::new(0x1_0000);
    assert_eq!(futexes.wait(uaddr, 1, None, 5, &mut vm), Err(Error::Again));
    assert_eq!(futexes.wait(VirtAddr::new(0x3_0000), 0, None, 5, &mut vm), Err(Error::Fault));
    assert!(futexes.wake(uaddr, 10, None).is_empty());
    assert_eq!(futexes.wait(uaddr, 0, None, 5, &mut vm), Ok(()));
    assert_eq!(futexes.wake(uaddr, 10, None), [5]);
    assert!(futexes.wake(uaddr, 10, None).is_empty());
}

#[test]
fn threads_are_woken_up_in_order() {
    let mut space = address_space();
    let mut vm = ActiveVirtualMemory { virtual_memory: &mut space };
    let mut futexes = Futexes::new();
    let uaddr = VirtAddr::new(0x1_0000);
    let other = VirtAddr::new(0x1_0004);
    for id in 1..=4 {
        futexes.wait(uaddr, 0, None, id, &mut vm).unwrap();
    }
    futexes.wait(other, 0, None, 9, &mut vm).unwrap();
    assert!(futexes.wake(uaddr, 0, None).is_empty());
    assert_eq!(futexes.wake(uaddr, 3, None), [1, 2, 3]);
    assert_eq!(futexes.wake(uaddr, 3, None), [4]);
    assert_eq!(futexes.wake(other, 1, None), [9]);
}

#[test]
fn threads_are_only_woken_up_if_they_are_interested() {
    let mut space = address_space();
    let mut vm = ActiveVirtualMemory { virtual_memory: &mut space };
    let mut futexes = Futexes::new();
    let uaddr = VirtAddr::new(0x1_0000);
    futexes.wait(uaddr, 0, Some(1), 1, &mut vm).unwrap();
    futexes.wait(uaddr, 0, Some(2), 2, &mut vm).unwrap();
    futexes.wait(uaddr, 0, None, 3, &mut vm).unwrap();
    futexes.wait(uaddr, 0, Some(6), 4, &mut vm).unwrap();
    assert_eq!(futexes.wake(uaddr, 2, Some(2)), [2, 3]);
    assert_eq!(futexes.wake(uaddr, 10, Some(8)), []);
    assert_eq!(futexes.wake(uaddr, 10, None), [1, 4]);
}

#[test]
fn threads_that_gave_up_are_not_counted() {
    let mut space = address_space();
    let mut vm = ActiveVirtualMemory { virtual_memory: &mut space };
    let mut futexes = Futexes::new();
    let uaddr = VirtAddr::new(0x1_0000);
    for id in 1..=3 {
        futexes.wait(uaddr, 0, None, id, &mut vm).unwrap();
    }
    futexes.cancel(uaddr, 1);
    futexes.cancel(VirtAddr::new(0x1_0004), 2);
    assert_eq!(futexes.wake(uaddr, 1, None), [2]);
    assert_eq!(futexes.wake(uaddr, 1, None), [3]);
}

#[test]
fn bitsets_match() {
    let waiter = |bitset| FutexWaiter { id: 1, bitset, canceled: false };
    assert!(waiter(None).matches_bitset(None));
    assert!(waiter(None).matches_bitset(Some(1)));
    assert!(waiter(Some(1)).matches_bitset(None));
    assert!(waiter(Some(5)).matches_bitset(Some(4)));
    assert!(!waiter(Some(5)).matches_bitset(Some(2)));
}

#[test]
fn waits_end() {
    assert_eq!(wait_outcome(false, false), None);
    assert_eq!(wait_outcome(false, true), Some(Err(Error::TimedOut)));
    assert_eq!(wait_outcome(true, false), Some(Ok(())));
    assert_eq!(wait_outcome(true, true), Some(Ok(())));
}
