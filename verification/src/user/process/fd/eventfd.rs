//! Counters that can be waited for.
use std::collections::VecDeque;
use vstd::prelude::*;

use crate::async_io::{Blocking, IoNotify, PendingIoNotifications};
use crate::error::Error;
use crate::user::process::fd::epoll::EpollEvents;

verus! {

/// The number that eight bytes stand for.
pub open spec fn number(bytes: Seq<u8>) -> int {
    bytes[0] + 0x100 * bytes[1] + 0x1_0000 * bytes[2] + 0x100_0000 * bytes[3] + 0x1_0000_0000
        * bytes[4] + 0x100_0000_0000 * bytes[5] + 0x1_0000_0000_0000 * bytes[6]
        + 0x100_0000_0000_0000 * bytes[7]
}

/// `bytemuck::pod_read_unaligned`: reads a number from its bytes, which are in little endian order.
#[verifier::external_body]
fn number_from_bytes(bytes: &[u8]) -> (res: u64)
    requires
        bytes@.len() == 8,
    ensures
        res == number(bytes@),
{
    u64::from_le(bytemuck::pod_read_unaligned::<u64>(bytes))
}

/// Writes the bytes of a number, in little endian order.
fn write_number(value: u64, buf: &mut [u8])
    requires
        old(buf)@.len() == 8,
    ensures
        final(buf)@.len() == 8,
        number(final(buf)@) == value,
{
    let v1: u64 = value / 0x100;
    let v2: u64 = v1 / 0x100;
    let v3: u64 = v2 / 0x100;
    let v4: u64 = v3 / 0x100;
    let v5: u64 = v4 / 0x100;
    let v6: u64 = v5 / 0x100;
    let v7: u64 = v6 / 0x100;
    buf[0] = (value % 0x100) as u8;
    buf[1] = (v1 % 0x100) as u8;
    buf[2] = (v2 % 0x100) as u8;
    buf[3] = (v3 % 0x100) as u8;
    buf[4] = (v4 % 0x100) as u8;
    buf[5] = (v5 % 0x100) as u8;
    buf[6] = (v6 % 0x100) as u8;
    assert(v7 < 0x100);
    buf[7] = v7 as u8;
}

/// A counter that can be waited for.
pub struct EventFd {
    /// The counter.
    pub counter: u64,
    /// Notifies readers about increments.
    pub io_notify: IoNotify,
}

impl EventFd {
    /// Creates a counter. It starts at zero, whatever the initial value is.
    pub fn new(initval: u32, id: u64) -> (res: Self)
        ensures
            res.counter == 0,
            res.io_notify.id == id,
            res.io_notify.counter == 0,
            res.io_notify.callbacks@ == Seq::<u64>::empty(),
    {
        EventFd { counter: 0, io_notify: IoNotify::new(id) }
    }

    /// Takes the value of the counter. If it's zero, it has to be waited for.
    pub fn read(&mut self, buf: &mut [u8]) -> (res: Result<Blocking<usize>, Error>)
        ensures
            final(self).io_notify == old(self).io_notify,
            final(buf)@.len() == old(buf)@.len(),
            old(buf)@.len() != 8 ==> {
                &&& res == Err::<Blocking<usize>, Error>(Error::Inval)
                &&& final(self).counter == old(self).counter
                &&& final(buf)@ == old(buf)@
            },
            old(buf)@.len() == 8 ==> final(self).counter == 0,
            old(buf)@.len() == 8 && old(self).counter == 0 ==> {
                &&& res matches Ok(Blocking::Blocked(registration))
                &&& registration.notify == old(self).io_notify.id
                &&& registration.counter == old(self).io_notify.counter
                &&& final(buf)@ == old(buf)@
            },
            old(buf)@.len() == 8 && old(self).counter != 0 ==> {
                &&& res == Ok::<Blocking<usize>, Error>(Blocking::Ready(8))
                &&& number(final(buf)@) == old(self).counter
            },
    {
        if buf.len() != 8 {
            return Err(Error::Inval);
        }
        let value: u64 = self.counter;
        self.counter = 0;
        if value == 0 {
            return Ok(Blocking::Blocked(self.io_notify.create_registration()));
        }
        write_number(value, buf);
        Ok(Blocking::Ready(8))
    }

    /// Adds to the counter and notifies readers. The counter must not overflow.
    pub fn write(&mut self, buf: &[u8], pending: &mut VecDeque<PendingIoNotifications>) -> (res:
        Result<usize, Error>)
        requires
            buf@.len() == 8 ==> old(self).counter + number(buf@) <= u64::MAX,
            old(self).io_notify.counter < u64::MAX,
        ensures
            buf@.len() != 8 ==> {
                &&& res == Err::<usize, Error>(Error::Inval)
                &&& *final(self) == *old(self)
                &&& final(pending)@ == old(pending)@
            },
            buf@.len() == 8 ==> {
                &&& res == Ok::<usize, Error>(8)
                &&& final(self).counter == old(self).counter + number(buf@)
                &&& final(self).io_notify.id == old(self).io_notify.id
                &&& final(self).io_notify.counter == old(self).io_notify.counter + 1
                &&& final(self).io_notify.callbacks@ == Seq::<u64>::empty()
                &&& final(pending)@.len() == old(pending)@.len() + 1
                &&& final(pending)@.drop_last() == old(pending)@
                &&& final(pending)@.last().notify == old(self).io_notify.id
                &&& final(pending)@.last().counter == final(self).io_notify.counter
                &&& final(pending)@.last().callbacks@ == old(self).io_notify.callbacks@
            },
    {
        if buf.len() != 8 {
            return Err(Error::Inval);
        }
        let add: u64 = number_from_bytes(buf);
        self.counter = self.counter + add;
        self.io_notify.notify(pending);
        Ok(8)
    }

    /// No events are reported.
    pub fn poll(&self, poll_events: EpollEvents) -> (res: Result<EpollEvents, Error>)
        ensures
            res == Ok::<EpollEvents, Error>(EpollEvents { bits: 0 }),
    {
        Ok(EpollEvents { bits: 0 })
    }
}

/// The first of the eight bytes of a number is the least significant one, and each byte counts 256 times
/// as much as the one before.
pub proof fn law_bytes_of_numbers(bytes: Seq<u8>)
    requires
        bytes.len() == 8,
    ensures
        number(bytes) == bytes[0] + 256 * (bytes[1] + 256 * (bytes[2] + 256 * (bytes[3] + 256 * (
        bytes[4] + 256 * (bytes[5] + 256 * (bytes[6] + 256 * bytes[7])))))),
        0 <= number(bytes) <= u64::MAX,
{
}

} // verus!
