use std::collections::VecDeque;

use mushroom::async_io::Blocking;
use mushroom::error::Error;
use mushroom::user::process::fd::epoll::{Epoll, EpollEvent, EpollEvents};
use mushroom::user::process::fd::eventfd::EventFd;
use mushroom::user::process::fd::pipe;
use mushroom::user::process::fd::unix_socket::UnixSocket;

#[test]
fn pipes_keep_the_order() {
    let mut pending = VecDeque::new();
    let (reader, writer, mut state) = pipe::new(1);
    assert_eq!(writer.write(&mut state, b"abc", &mut pending), Ok(3));
    assert_eq!(writer.write(&mut state, b"de", &mut pending), Ok(2));
    assert_eq!(pending.len(), 2);

    let mut buf = [b'.'; 4];
    assert!(matches!(reader.read(&mut state, true, &mut buf), Ok(Blocking::Ready(4))));
    assert_eq!(&buf, b"abcd");
    assert!(matches!(reader.read(&mut state, true, &mut buf), Ok(Blocking::Ready(1))));
    assert_eq!(&buf, b"ebcd");
}

#[test]
fn empty_pipes_block_or_end() {
    let mut pending = VecDeque::new();
    let (reader, writer, mut state) = pipe::new(7);
    let mut buf = [0; 4];
    let registration = match reader.read(&mut state, true, &mut buf) {
        Ok(Blocking::Blocked(registration)) => registration,
        _ => unreachable!(),
    };
    assert_eq!(registration.notify, 7);
    assert_eq!(registration.counter, 0);
    registration.register(5, &mut state.io_notify, &mut pending);
    writer.write(&mut state, b"a", &mut pending).unwrap();
    assert_eq!(pending[0].callbacks, [5]);

    assert!(matches!(reader.read(&mut state, false, &mut buf), Ok(Blocking::Ready(1))));
    assert!(matches!(reader.read(&mut state, false, &mut buf), Ok(Blocking::Ready(0))));
}

#[test]
fn counters_are_taken() {
    let mut pending = VecDeque::new();
    let mut fd = EventFd::new(5, 1);
    let mut buf = [0xaa; 8];
    // The initial value isn't used.
    assert!(matches!(fd.read(&mut buf), Ok(Blocking::Blocked(_))));
    assert_eq!(buf, [0xaa; 8]);

    assert_eq!(fd.write(&0x0102_0304_0506_0708u64.to_le_bytes(), &mut pending), Ok(8));
    assert_eq!(fd.write(&1u64.to_le_bytes(), &mut pending), Ok(8));
    assert_eq!(fd.counter, 0x0102_0304_0506_0709);
    assert!(matches!(fd.read(&mut buf), Ok(Blocking::Ready(8))));
    assert_eq!(buf, [9, 7, 6, 5, 4, 3, 2, 1]);
    assert!(matches!(fd.read(&mut buf), Ok(Blocking::Blocked(_))));
    assert_eq!(pending.len(), 2);
}

#[test]
fn counters_have_eight_bytes() {
    let mut pending = VecDeque::new();
    let mut fd = EventFd::new(0, 1);
    assert_eq!(fd.write(&[1; 7], &mut pending), Err(Error::Inval));
    assert!(matches!(fd.read(&mut [0; 9]), Err(Error::Inval)));
    assert!(pending.is_empty());
    let events = EpollEvents { bits: 1 };
    assert_eq!(fd.poll(events), Ok(EpollEvents { bits: 0 }));
}

#[test]
fn events_are_collected() {
    let mut epoll = Epoll::new();
    let wanted = EpollEvents { bits: 5 };
    for data in 0..5 {
        assert_eq!(epoll.epoll_add(data + 100, EpollEvent { events: wanted, data }), Ok(()));
    }
    assert_eq!(epoll.interest_list[1].fd, 101);
    let polled = [
        Ok(EpollEvents { bits: 0 }),
        Ok(EpollEvents { bits: 1 }),
        Err(Error::Inval),
        Ok(EpollEvents { bits: 4 }),
        Ok(EpollEvents { bits: 5 }),
    ];
    let first = EpollEvent { events: EpollEvents { bits: 1 }, data: 1 };
    let second = EpollEvent { events: EpollEvents { bits: 4 }, data: 3 };
    let third = EpollEvent { events: EpollEvents { bits: 5 }, data: 4 };
    assert_eq!(epoll.epoll_wait(10, &polled), [first, second, third]);
    assert_eq!(epoll.epoll_wait(2, &polled), [first, second]);
    assert!(epoll.epoll_wait(0, &polled).is_empty());
}

#[test]
fn sockets_have_no_events() {
    let (a, b) = UnixSocket::new_pair();
    assert_eq!(a.poll(EpollEvents { bits: 7 }), Ok(EpollEvents { bits: 0 }));
    assert_eq!(b.poll(EpollEvents { bits: 0 }), Ok(EpollEvents { bits: 0 }));
}
