//! Waiting for events on several files.
use vstd::prelude::*;

use crate::error::Error;

verus! {

/// A set of events.
#[derive(Clone, Copy, PartialEq, Eq, Structural, Debug)]
pub struct EpollEvents {
    /// The events as bits.
    pub bits: u32,
}

/// Events on a file.
#[derive(Clone, Copy, PartialEq, Eq, Structural, Debug)]
pub struct EpollEvent {
    /// The events.
    pub events: EpollEvents,
    /// What user space knows the file by.
    pub data: u64,
}

/// A file on which events are waited for.
#[derive(Clone, Copy, PartialEq, Eq, Structural, Debug)]
pub struct InterestListEntry {
    /// The number that the kernel knows the file by.
    pub fd: u64,
    /// The events that are waited for.
    pub event: EpollEvent,
}

/// The files on which events are waited for.
pub struct Epoll {
    /// The files in the order in which they have been added.
    pub interest_list: Vec<InterestListEntry>,
}

/// The events that have happened. Files that can't be polled or have no events are left out.
pub open spec fn ready(
    list: Seq<InterestListEntry>,
    polled: Seq<Result<EpollEvents, Error>>,
) -> Seq<EpollEvent>
    decreases list.len(),
{
    if list.len() == 0 {
        Seq::empty()
    } else {
        let before = ready(list.drop_last(), polled);
        match polled[list.len() - 1] {
            Ok(events) => if events.bits == 0 {
                before
            } else {
                before.push(EpollEvent { events, data: list.last().event.data })
            },
            Err(_) => before,
        }
    }
}

/// The first elements, or all if there are fewer.
pub open spec fn at_most(events: Seq<EpollEvent>, count: int) -> Seq<EpollEvent> {
    if events.len() <= count {
        events
    } else {
        events.take(count)
    }
}

/// There are no more events than files, and no fewer if there are more files.
proof fn lemma_ready_grows(
    list: Seq<InterestListEntry>,
    polled: Seq<Result<EpollEvents, Error>>,
    i: int,
)
    requires
        0 <= i <= list.len(),
    ensures
        ready(list.take(i), polled).len() <= ready(list, polled).len(),
        ready(list, polled).take(ready(list.take(i), polled).len() as int) == ready(
            list.take(i),
            polled,
        ),
    decreases list.len() - i,
{
    if i < list.len() {
        lemma_ready_grows(list, polled, i + 1);
        assert(list.take(i + 1).drop_last() =~= list.take(i));
        let all = ready(list, polled);
        let some = ready(list.take(i), polled);
        let next = ready(list.take(i + 1), polled);
        assert(all.take(some.len() as int) =~= all.take(next.len() as int).take(some.len() as int));
        assert(next.take(some.len() as int) =~= some);
    } else {
        assert(list.take(i) =~= list);
        let all = ready(list, polled);
        assert(all.take(all.len() as int) =~= all);
    }
}

impl Epoll {
    /// Waits for no events.
    pub fn new() -> (res: Self)
        ensures
            res.interest_list@ == Seq::<InterestListEntry>::empty(),
    {
        Epoll { interest_list: Vec::new() }
    }

    /// Collects the events that have happened from what polling each of the files returned.
    pub fn epoll_wait(&self, maxevents: usize, polled: &[Result<EpollEvents, Error>]) -> (res: Vec<
        EpollEvent,
    >)
        requires
            polled@.len() == self.interest_list@.len(),
        ensures
            res@ == at_most(ready(self.interest_list@, polled@), maxevents as int),
            res@.len() <= maxevents,
            forall|k: int|
                0 <= k < res@.len() ==> exists|i: int|
                    0 <= i < polled@.len() && #[trigger] polled@[i] == Ok::<EpollEvents, Error>(
                        (#[trigger] res@[k]).events,
                    ) && res@[k].events.bits != 0 && res@[k].data
                        == self.interest_list@[i].event.data,
    {
        let ghost list = self.interest_list@;
        let mut events: Vec<EpollEvent> = Vec::new();
        let mut i: usize = 0;
        assert(list.take(0) =~= Seq::empty());
        while i < self.interest_list.len() && events.len() < maxevents
            invariant
                i <= list.len(),
                list == self.interest_list@,
                polled@.len() == list.len(),
                events@ == ready(list.take(i as int), polled@),
                events@.len() <= maxevents,
            decreases list.len() - i,
        {
            assert(list.take(i + 1).drop_last() =~= list.take(i as int));
            match polled[i] {
                Ok(found) => {
                    if found.bits != 0 {
                        events.push(
                            EpollEvent { events: found, data: self.interest_list[i].event.data },
                        );
                    }
                },
                Err(_) => {},
            }
            i = i + 1;
        }
        proof {
            lemma_ready_grows(list, polled@, i as int);
            if i == list.len() {
                assert(list.take(i as int) =~= list);
            }
            let all = ready(list, polled@);
            assert(all.take(all.len() as int) =~= all);
            let at = law_events_match_files(list, polled@, maxevents as int);
            assert forall|k: int| 0 <= k < events@.len() implies exists|i: int|
                0 <= i < polled@.len() && #[trigger] polled@[i] == Ok::<EpollEvents, Error>(
                    (#[trigger] events@[k]).events,
                ) && events@[k].events.bits != 0 && events@[k].data == list[i].event.data by {
                assert(polled@[at[k]] == Ok::<EpollEvents, Error>(events@[k].events));
            }
        }
        events
    }

    /// Adds a file on which events are waited for.
    pub fn epoll_add(&mut self, fd: u64, event: EpollEvent) -> (res: Result<(), Error>)
        ensures
            res == Ok::<(), Error>(()),
            final(self).interest_list@ == old(self).interest_list@.push(
                (InterestListEntry { fd, event }),
            ),
    {
        // Register the file descriptor.
        self.interest_list.push(InterestListEntry { fd, event });
        Ok(())
    }
}

/// Which files the events belong to.
proof fn lemma_ready_files(
    list: Seq<InterestListEntry>,
    polled: Seq<Result<EpollEvents, Error>>,
) -> (at: Seq<int>)
    requires
        list.len() <= polled.len(),
    ensures
        at.len() == ready(list, polled).len(),
        forall|k: int|
            0 <= k < at.len() ==> 0 <= #[trigger] at[k] < list.len() && polled[at[k]] == Ok::<
                EpollEvents,
                Error,
            >(ready(list, polled)[k].events) && ready(list, polled)[k].events.bits != 0 && ready(
                list,
                polled,
            )[k].data == list[at[k]].event.data,
        forall|j: int, k: int| 0 <= j < k < at.len() ==> at[j] < at[k],
        forall|i: int| #![trigger polled[i]]
            0 <= i < list.len() && polled[i] is Ok && polled[i]->Ok_0.bits != 0 ==> at.contains(i),
    decreases list.len(),
{
    if list.len() == 0 {
        Seq::empty()
    } else {
        let last = list.len() - 1;
        let before = lemma_ready_files(list.drop_last(), polled);
        if polled[last] is Ok && polled[last]->Ok_0.bits != 0 {
            let at = before.push(last);
            assert(at[before.len() as int] == last);
            assert forall|i: int| #![trigger polled[i]]
                0 <= i < list.len() && polled[i] is Ok && polled[i]->Ok_0.bits
                    != 0 implies at.contains(i) by {
                if i < last {
                    let k = choose|k: int| 0 <= k < before.len() && before[k] == i;
                    assert(at[k] == i);
                }
            }
            at
        } else {
            before
        }
    }
}

/// Each event is one that polling a file returned, and carries what user space knows that file by.
/// The events are in the order of the files. A file with events is left out only if there are as
/// many events as asked for, all of files that come earlier.
pub proof fn law_events_match_files(
    list: Seq<InterestListEntry>,
    polled: Seq<Result<EpollEvents, Error>>,
    maxevents: int,
) -> (at: Seq<int>)
    requires
        list.len() == polled.len(),
        maxevents >= 0,
    ensures
        ({
            let events = at_most(ready(list, polled), maxevents);
            &&& at.len() == events.len() <= maxevents
            &&& forall|k: int|
                0 <= k < at.len() ==> 0 <= #[trigger] at[k] < list.len() && polled[at[k]] == Ok::<
                    EpollEvents,
                    Error,
                >(events[k].events) && events[k].events.bits != 0 && events[k].data
                    == list[at[k]].event.data
            &&& forall|j: int, k: int| 0 <= j < k < at.len() ==> at[j] < at[k]
            &&& forall|i: int| #![trigger polled[i]]
                0 <= i < list.len() && polled[i] is Ok && polled[i]->Ok_0.bits != 0 && !at.contains(
                    i,
                ) ==> events.len() == maxevents && forall|k: int|
                    0 <= k < at.len() ==> #[trigger] at[k] < i
        }),
{
    let all = lemma_ready_files(list, polled);
    if all.len() <= maxevents {
        all
    } else {
        let at = all.take(maxevents);
        assert forall|i: int| #![trigger polled[i]]
            0 <= i < list.len() && polled[i] is Ok && polled[i]->Ok_0.bits != 0 && !at.contains(
                i,
            ) implies forall|k: int| 0 <= k < at.len() ==> #[trigger] at[k] < i by {
            let j = choose|j: int| 0 <= j < all.len() && all[j] == i;
            if j < maxevents {
                assert(at[j] == i);
            }
        }
        at
    }
}

} // verus!
