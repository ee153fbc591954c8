//! Sockets between processes.
use vstd::prelude::*;

use crate::error::Error;
use crate::user::process::fd::epoll::EpollEvents;

verus! {

/// One end of a connection.
#[derive(Clone, Copy, PartialEq, Eq, Structural, Debug)]
pub struct UnixSocket {}

impl UnixSocket {
    /// Creates the two ends of a connection.
    pub fn new_pair() -> (res: (Self, Self))
        ensures
            res == (UnixSocket {  }, UnixSocket {  }),
    {
        (UnixSocket {  }, UnixSocket {  })
    }

    /// No events are reported.
    pub fn poll(&self, poll_events: EpollEvents) -> (res: Result<EpollEvents, Error>)
        ensures
            res == Ok::<EpollEvents, Error>(EpollEvents { bits: 0 }),
    {
        Ok(EpollEvents { bits: 0 })
    }
}

} // verus!
