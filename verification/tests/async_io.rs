use std::cell::Cell;
use std::collections::VecDeque;

use mushroom::async_io::{
    run_pending_notifications, try_io, Blocking, IoNotify, IoNotifyRegistration, RequiresRetry,
};

#[test]
fn results_are_handed_on() {
    let seen = Cell::new(None);
    let res: Result<Blocking<u32>, u8> = Ok(Blocking::Ready(5));
    assert_eq!(try_io(res, |res| seen.set(Some(res))), Ok(()));
    assert_eq!(seen.get(), Some(Ok(5)));

    let res: Result<Blocking<u32>, u8> = Err(7);
    assert_eq!(try_io(res, |res| seen.set(Some(res))), Ok(()));
    assert_eq!(seen.get(), Some(Err(7)));
}

#[test]
fn blocked_operations_are_retried() {
    let seen = Cell::new(None);
    let registration = IoNotifyRegistration { counter: 0, notify: 1 };
    let res: Result<Blocking<u32>, u8> = Ok(Blocking::Blocked(registration));
    assert_eq!(try_io(res, |res| seen.set(Some(res))), Err(RequiresRetry));
    assert_eq!(seen.get(), None);
}

#[test]
fn callbacks_wait_for_a_notification() {
    let mut pending = VecDeque::new();
    let mut notify = IoNotify::new(1);
    let registration = notify.create_registration();
    registration.register(10, &mut notify, &mut pending);
    registration.register(11, &mut notify, &mut pending);
    assert!(run_pending_notifications(&mut pending).is_none());
    assert_eq!(notify.callbacks, [10, 11]);

    notify.notify(&mut pending);
    assert!(notify.callbacks.is_empty());
    let notifications = run_pending_notifications(&mut pending).unwrap();
    assert_eq!(notifications.notify, 1);
    assert_eq!(notifications.counter, 1);
    assert_eq!(notifications.callbacks, [10, 11]);
    assert!(run_pending_notifications(&mut pending).is_none());
}

#[test]
fn late_callbacks_are_run_right_away() {
    let mut pending = VecDeque::new();
    let mut notify = IoNotify::new(1);
    let registration = notify.create_registration();
    notify.notify(&mut pending);
    registration.register(10, &mut notify, &mut pending);
    assert!(notify.callbacks.is_empty());

    let first = run_pending_notifications(&mut pending).unwrap();
    assert!(first.callbacks.is_empty());
    let second = run_pending_notifications(&mut pending).unwrap();
    assert_eq!(second.callbacks, [10]);
    assert_eq!(second.counter, 1);
}

#[test]
fn callbacks_that_have_to_be_retried_wait_again() {
    let mut pending = VecDeque::new();
    let mut notify = IoNotify::new(1);
    for callback in 10..14 {
        notify.create_registration().register(callback, &mut notify, &mut pending);
    }
    notify.notify(&mut pending);
    notify.create_registration().register(20, &mut notify, &mut pending);
    let notifications = run_pending_notifications(&mut pending).unwrap();
    assert!(notifications.run(&[false, true, false, true], &mut notify).is_none());
    assert_eq!(notify.callbacks, [20, 11, 13]);
}

#[test]
fn callbacks_are_run_again_after_another_notification() {
    let mut pending = VecDeque::new();
    let mut notify = IoNotify::new(1);
    notify.create_registration().register(10, &mut notify, &mut pending);
    notify.create_registration().register(11, &mut notify, &mut pending);
    notify.notify(&mut pending);
    let notifications = run_pending_notifications(&mut pending).unwrap();
    notify.notify(&mut pending);

    let next = notifications.run(&[true, false], &mut notify).unwrap();
    assert_eq!(next.callbacks, [10]);
    assert_eq!(next.counter, 2);
    assert!(notify.callbacks.is_empty());
    assert!(next.run(&[false], &mut notify).is_none());
    assert!(notify.callbacks.is_empty());
}
