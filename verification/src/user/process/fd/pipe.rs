//! Pipes.
use std::collections::VecDeque;
use vstd::prelude::*;

use crate::async_io::{Blocking, IoNotify, PendingIoNotifications};
use crate::error::Error;
use crate::memory::pagetable;

verus! {

/// What both ends of a pipe share.
pub struct State {
    /// The bytes that have been written but not been read.
    pub buffer: VecDeque<u8>,
    /// Notifies readers about bytes that have been written.
    pub io_notify: IoNotify,
}

impl State {
    /// Creates a pipe without bytes in it.
    fn new(id: u64) -> (res: Self)
        ensures
            res.buffer@ == Seq::<u8>::empty(),
            res.io_notify.id == id,
            res.io_notify.counter == 0,
            res.io_notify.callbacks@ == Seq::<u64>::empty(),
    {
        State { buffer: VecDeque::new(), io_notify: IoNotify::new(id) }
    }
}

/// The end of a pipe that is read from.
#[derive(Clone, Copy, PartialEq, Eq, Structural, Debug)]
pub struct ReadHalf {
    /// The number that the pipe is known by.
    pub id: u64,
}

/// The end of a pipe that is written to.
#[derive(Clone, Copy, PartialEq, Eq, Structural, Debug)]
pub struct WriteHalf {
    /// The number that the pipe is known by.
    pub id: u64,
}

/// Creates a pipe.
pub fn new(id: u64) -> (res: (ReadHalf, WriteHalf, State))
    ensures
        res.0.id == id,
        res.1.id == id,
        res.2.buffer@ == Seq::<u8>::empty(),
        res.2.io_notify.id == id,
        res.2.io_notify.counter == 0,
        res.2.io_notify.callbacks@ == Seq::<u64>::empty(),
{
    (ReadHalf { id }, WriteHalf { id }, State::new(id))
}

/// How many bytes are read.
pub open spec fn read_len(available: int, wanted: int) -> int {
    if available < wanted {
        available
    } else {
        wanted
    }
}

impl ReadHalf {
    /// Reads bytes in the order in which they have been written. If there are none, the pipe has
    /// ended if the other end is gone, and has to be waited for otherwise.
    pub fn read(&self, state: &mut State, other_end_exists: bool, buf: &mut [u8]) -> (res: Result<
        Blocking<usize>,
        Error,
    >)
        ensures
            final(state).io_notify == old(state).io_notify,
            old(state).buffer@.len() == 0 ==> {
                &&& final(state).buffer@ == old(state).buffer@
                &&& final(buf)@ == old(buf)@
                &&& !other_end_exists ==> res == Ok::<Blocking<usize>, Error>(Blocking::Ready(0))
                &&& other_end_exists ==> {
                    &&& res matches Ok(Blocking::Blocked(registration))
                    &&& registration.notify == old(state).io_notify.id
                    &&& registration.counter == old(state).io_notify.counter
                }
            },
            old(state).buffer@.len() > 0 ==> {
                let len = read_len(old(state).buffer@.len() as int, old(buf)@.len() as int);
                &&& res == Ok::<Blocking<usize>, Error>(Blocking::Ready(len as usize))
                &&& final(state).buffer@ == old(state).buffer@.skip(len)
                &&& final(buf)@ == pagetable::overwrite(
                    old(buf)@,
                    0,
                    old(state).buffer@.take(len),
                )
            },
    {
        if state.buffer.len() == 0 {
            if !other_end_exists {
                return Ok(Blocking::Ready(0));
            }
            return Ok(Blocking::Blocked(state.io_notify.create_registration()));
        }
        let ghost bytes = state.buffer@;
        let mut read: usize = 0;
        assert(bytes.skip(0) =~= bytes);
        assert(buf@ =~= pagetable::overwrite(old(buf)@, 0, bytes.take(0)));
        while read < buf.len() && state.buffer.len() > 0
            invariant
                read <= buf@.len(),
                read <= bytes.len(),
                buf@.len() == old(buf)@.len(),
                state.io_notify == old(state).io_notify,
                state.buffer@ == bytes.skip(read as int),
                buf@ == pagetable::overwrite(old(buf)@, 0, bytes.take(read as int)),
            decreases buf@.len() - read,
        {
            match state.buffer.pop_front() {
                Some(byte) => {
                    buf[read] = byte;
                    assert(byte == bytes[read as int]);
                },
                None => {},
            }
            read = read + 1;
            assert(state.buffer@ =~= bytes.skip(read as int));
            assert(buf@ =~= pagetable::overwrite(old(buf)@, 0, bytes.take(read as int)));
        }
        Ok(Blocking::Ready(read))
    }
}

impl WriteHalf {
    /// Writes bytes behind all others and notifies readers.
    pub fn write(
        &self,
        state: &mut State,
        buf: &[u8],
        pending: &mut VecDeque<PendingIoNotifications>,
    ) -> (res: Result<usize, Error>)
        requires
            old(state).io_notify.counter < u64::MAX,
        ensures
            res == Ok::<usize, Error>(buf@.len() as usize),
            final(state).buffer@ == old(state).buffer@ + buf@,
            final(state).io_notify.id == old(state).io_notify.id,
            final(state).io_notify.counter == old(state).io_notify.counter + 1,
            final(state).io_notify.callbacks@ == Seq::<u64>::empty(),
            final(pending)@.len() == old(pending)@.len() + 1,
            final(pending)@.drop_last() == old(pending)@,
            final(pending)@.last().notify == old(state).io_notify.id,
            final(pending)@.last().counter == final(state).io_notify.counter,
            final(pending)@.last().callbacks@ == old(state).io_notify.callbacks@,
    {
        let mut i: usize = 0;
        assert(state.buffer@ =~= old(state).buffer@ + buf@.take(0));
        while i < buf.len()
            invariant
                i <= buf@.len(),
                state.io_notify == old(state).io_notify,
                state.buffer@ == old(state).buffer@ + buf@.take(i as int),
            decreases buf@.len() - i,
        {
            state.buffer.push_back(buf[i]);
            i = i + 1;
            assert(state.buffer@ =~= old(state).buffer@ + buf@.take(i as int));
        }
        assert(buf@.take(i as int) =~= buf@);
        state.io_notify.notify(pending);
        Ok(buf.len())
    }
}

/// Bytes are read in the order in which they have been written: two reads return what a single one
/// would have returned, and what is written in the meantime comes after what is there.
pub proof fn law_reads_continue(unread: Seq<u8>, written: Seq<u8>, first: int, second: int)
    requires
        0 <= first,
        0 <= second,
        first + second <= unread.len() + written.len(),
        first <= unread.len(),
    ensures
        unread.take(first) + (unread.skip(first) + written).take(second) == (unread
            + written).take(first + second),
{
    assert(unread.take(first) + (unread.skip(first) + written).take(second) =~= (unread
        + written).take(first + second));
}

/// A read returns as many bytes as there are and as fit.
pub proof fn law_read_length(available: int, wanted: int)
    ensures
        read_len(available, wanted) <= available,
        read_len(available, wanted) <= wanted,
        read_len(available, wanted) == available || read_len(available, wanted) == wanted,
{
}

/// What is written to a pipe is read from it, byte by byte and in order, and a byte that has been read
/// isn't there any more.
pub proof fn law_pipe_is_a_queue(unread: Seq<u8>, buf: Seq<u8>, i: int)
    requires
        unread.len() > 0,
    ensures
        ({
            let len = read_len(unread.len() as int, buf.len() as int);
            let new_buf = pagetable::overwrite(buf, 0, unread.take(len));
            &&& 0 <= i < len ==> new_buf[i] == unread[i]
            &&& len <= i < buf.len() ==> new_buf[i] == buf[i]
            &&& new_buf.len() == buf.len()
            &&& unread.skip(len).len() == unread.len() - len
            &&& len == buf.len() || len == unread.len()
            &&& unread.take(len) + unread.skip(len) == unread
        }),
{
    let len = read_len(unread.len() as int, buf.len() as int);
    assert(unread.take(len) + unread.skip(len) =~= unread);
}

} // verus!
