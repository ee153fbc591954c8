//! Notifications about I/O that has become possible.
//!
//! Callbacks are known by numbers.
use std::collections::VecDeque;
use vstd::prelude::*;

verus! {

/// The result of an operation that may have to wait.
pub enum Blocking<T> {
    /// The operation is done.
    Ready(T),
    /// The operation has to be tried again after a notification.
    Blocked(IoNotifyRegistration),
}

/// An operation has to be tried again.
#[derive(Clone, Copy, PartialEq, Eq, Structural, Debug)]
pub struct RequiresRetry;

/// The result of an operation if it is done.
pub open spec fn finished<T, E>(res: Result<Blocking<T>, E>) -> Option<Result<T, E>> {
    match res {
        Ok(Blocking::Ready(value)) => Some(Ok(value)),
        Ok(Blocking::Blocked(_)) => None,
        Err(err) => Some(Err(err)),
    }
}

/// Hands the result of an operation on if it is done.
pub fn try_io<T, E, F: FnOnce(Result<T, E>)>(res: Result<Blocking<T>, E>, f: F) -> (retry: Result<
    (),
    RequiresRetry,
>)
    requires
        finished(res) matches Some(result) ==> call_requires(f, (result,)),
    ensures
        retry is Ok <==> finished(res) is Some,
        finished(res) matches Some(result) ==> call_ensures(f, (result,), ()),
{
    match res {
        Ok(Blocking::Ready(value)) => {
            f(Ok(value));
            Ok(())
        },
        Err(err) => {
            f(Err(err));
            Ok(())
        },
        Ok(Blocking::Blocked(_)) => Err(RequiresRetry),
    }
}

/// Something that can be waited for.
pub struct IoNotify {
    /// The number that the object is known by.
    pub id: u64,
    /// How many notifications there have been.
    pub counter: u64,
    /// The callbacks that wait for the next notification.
    pub callbacks: Vec<u64>,
}

/// A point in time from which on notifications are waited for.
#[derive(Clone, Copy, PartialEq, Eq, Structural, Debug)]
pub struct IoNotifyRegistration {
    /// How many notifications there had been.
    pub counter: u64,
    /// What is waited for.
    pub notify: u64,
}

/// Callbacks that are about to be run.
pub struct PendingIoNotifications {
    /// What the callbacks waited for.
    pub notify: u64,
    /// How many notifications there have been.
    pub counter: u64,
    /// The callbacks.
    pub callbacks: Vec<u64>,
}

impl IoNotify {
    /// Creates an object that hasn't been notified.
    pub fn new(id: u64) -> (res: Self)
        ensures
            res.id == id,
            res.counter == 0,
            res.callbacks@ == Seq::<u64>::empty(),
    {
        IoNotify { id, counter: 0, callbacks: Vec::new() }
    }

    /// Schedules all callbacks to be run.
    pub fn notify(&mut self, pending: &mut VecDeque<PendingIoNotifications>)
        requires
            old(self).counter < u64::MAX,
        ensures
            final(self).id == old(self).id,
            final(self).counter == old(self).counter + 1,
            final(self).callbacks@ == Seq::<u64>::empty(),
            final(pending)@.len() == old(pending)@.len() + 1,
            final(pending)@.drop_last() == old(pending)@,
            final(pending)@.last().notify == old(self).id,
            final(pending)@.last().counter == final(self).counter,
            final(pending)@.last().callbacks@ == old(self).callbacks@,
    {
        // Increase the counter.
        self.counter = self.counter + 1;
        // Take all callbacks and record the counter.
        let mut callbacks: Vec<u64> = Vec::new();
        core::mem::swap(&mut callbacks, &mut self.callbacks);
        pending.push_back(
            PendingIoNotifications { notify: self.id, counter: self.counter, callbacks },
        );
        assert(pending@.drop_last() =~= old(pending)@);
    }

    /// Remembers how many notifications there have been.
    pub fn create_registration(&self) -> (res: IoNotifyRegistration)
        ensures
            res.notify == self.id,
            res.counter == self.counter,
    {
        IoNotifyRegistration { counter: self.counter, notify: self.id }
    }
}

impl IoNotifyRegistration {
    /// Registers a callback. If there has been a notification in the meantime, the callback is
    /// scheduled to be run right away.
    pub fn register(
        self,
        callback: u64,
        notify: &mut IoNotify,
        pending: &mut VecDeque<PendingIoNotifications>,
    )
        requires
            self.notify == old(notify).id,
        ensures
            final(notify).id == old(notify).id,
            final(notify).counter == old(notify).counter,
            old(notify).counter == self.counter ==> {
                &&& final(notify).callbacks@ == old(notify).callbacks@.push(callback)
                &&& final(pending)@ == old(pending)@
            },
            old(notify).counter != self.counter ==> {
                &&& final(notify).callbacks@ == old(notify).callbacks@
                &&& final(pending)@.len() == old(pending)@.len() + 1
                &&& final(pending)@.drop_last() == old(pending)@
                &&& final(pending)@.last().notify == self.notify
                &&& final(pending)@.last().counter == old(notify).counter
                &&& final(pending)@.last().callbacks@ == seq![callback]
            },
    {
        if notify.counter == self.counter {
            notify.callbacks.push(callback);
            return;
        }
        let mut callbacks: Vec<u64> = Vec::new();
        callbacks.push(callback);
        pending.push_back(
            PendingIoNotifications { notify: self.notify, counter: notify.counter, callbacks },
        );
        assert(pending@.drop_last() =~= old(pending)@);
        assert(pending@.last().callbacks@ =~= seq![callback]);
    }
}

/// The callbacks that have to be tried again.
pub open spec fn retried(callbacks: Seq<u64>, retry: Seq<bool>) -> Seq<u64>
    decreases callbacks.len(),
{
    if callbacks.len() == 0 {
        Seq::empty()
    } else if retry[callbacks.len() - 1] {
        retried(callbacks.drop_last(), retry).push(callbacks.last())
    } else {
        retried(callbacks.drop_last(), retry)
    }
}

impl PendingIoNotifications {
    /// Decides what becomes of the callbacks after all of them have been run. Those that don't need
    /// to be retried are done.
    ///
    /// If there hasn't been another notification, the others wait for the next one. Otherwise they
    /// have to be run again, and are returned.
    pub fn run(self, retry: &[bool], notify: &mut IoNotify) -> (res: Option<Self>)
        requires
            retry@.len() == self.callbacks@.len(),
            self.notify == old(notify).id,
        ensures
            final(notify).id == old(notify).id,
            final(notify).counter == old(notify).counter,
            final(notify).callbacks@ == if old(notify).counter == self.counter {
                old(notify).callbacks@ + retried(self.callbacks@, retry@)
            } else {
                old(notify).callbacks@
            },
            res is Some <==> retried(self.callbacks@, retry@).len() > 0 && old(notify).counter
                != self.counter,
            res matches Some(next) ==> {
                &&& next.notify == self.notify
                &&& next.counter == old(notify).counter
                &&& next.callbacks@ == retried(self.callbacks@, retry@)
            },
    {
        // Keep those that need to be retried.
        let mut callbacks: Vec<u64> = Vec::new();
        let mut i: usize = 0;
        while i < self.callbacks.len()
            invariant
                i <= self.callbacks@.len(),
                retry@.len() == self.callbacks@.len(),
                callbacks@ == retried(self.callbacks@.take(i as int), retry@),
            decreases self.callbacks@.len() - i,
        {
            assert(self.callbacks@.take(i + 1).drop_last() =~= self.callbacks@.take(i as int));
            if retry[i] {
                callbacks.push(self.callbacks[i]);
            }
            i = i + 1;
        }
        assert(self.callbacks@.take(i as int) =~= self.callbacks@);
        // Return if no callbacks need to be retried.
        if callbacks.len() == 0 {
            assert(notify.callbacks@ + callbacks@ =~= notify.callbacks@);
            return None;
        }
        // If the counter has not since been increased ...
        if notify.counter == self.counter {
            // ... put them back into the vector.
            let ghost kept = callbacks@;
            notify.callbacks.append(&mut callbacks);
            assert(notify.callbacks@ =~= old(notify).callbacks@ + kept);
            return None;
        }
        // Otherwise try again with the new counter.
        Some(PendingIoNotifications { notify: self.notify, counter: notify.counter, callbacks })
    }
}

/// Takes the pending notifications that are to be run next.
pub fn run_pending_notifications(pending: &mut VecDeque<PendingIoNotifications>) -> (res: Option<
    PendingIoNotifications,
>)
    ensures
        old(pending)@.len() == 0 ==> res is None && final(pending)@ == old(pending)@,
        old(pending)@.len() > 0 ==> res == Some(old(pending)@[0]) && final(pending)@ == old(
            pending,
        )@.skip(1),
{
    let res: Option<PendingIoNotifications> = pending.pop_front();
    assert(old(pending)@.len() > 0 ==> pending@ =~= old(pending)@.skip(1));
    res
}

/// Exactly the callbacks that have to be tried again are kept.
pub proof fn law_retried_callbacks_are_kept(callbacks: Seq<u64>, retry: Seq<bool>, callback: u64)
    requires
        retry.len() >= callbacks.len(),
    ensures
        retried(callbacks, retry).contains(callback) <==> exists|i: int|
            0 <= i < callbacks.len() && #[trigger] callbacks[i] == callback && retry[i],
    decreases callbacks.len(),
{
    if callbacks.len() > 0 {
        let last = callbacks.len() - 1;
        let rest = callbacks.drop_last();
        law_retried_callbacks_are_kept(rest, retry, callback);
        if retried(callbacks, retry).contains(callback) {
            if retried(rest, retry).contains(callback) {
                let i = choose|i: int| 0 <= i < rest.len() && #[trigger] rest[i] == callback && retry[i];
                assert(callbacks[i] == callback);
            } else {
                assert(callbacks[last] == callback);
            }
        }
        if exists|i: int|
            0 <= i < callbacks.len() && #[trigger] callbacks[i] == callback && retry[i] {
            let i = choose|i: int|
                0 <= i < callbacks.len() && #[trigger] callbacks[i] == callback && retry[i];
            if i < last {
                assert(rest[i] == callback);
                let k = choose|k: int|
                    0 <= k < retried(rest, retry).len() && retried(rest, retry)[k] == callback;
                assert(retried(callbacks, retry)[k] == callback);
            } else {
                let all = retried(callbacks, retry);
                assert(all[all.len() - 1] == callback);
            }
        }
    }
}

/// The callbacks that have to be tried again stay in order, and each is kept as often as it has to be
/// tried again.
pub proof fn law_retried_callbacks_stay_in_order(callbacks: Seq<u64>, retry: Seq<bool>) -> (at: Seq<
    int,
>)
    requires
        retry.len() >= callbacks.len(),
    ensures
        at.len() == retried(callbacks, retry).len(),
        forall|k: int|
            0 <= k < at.len() ==> 0 <= #[trigger] at[k] < callbacks.len() && retry[at[k]]
                && retried(callbacks, retry)[k] == callbacks[at[k]],
        forall|j: int, k: int| 0 <= j < k < at.len() ==> at[j] < at[k],
        forall|i: int| 0 <= i < callbacks.len() && #[trigger] retry[i] ==> at.contains(i),
    decreases callbacks.len(),
{
    if callbacks.len() == 0 {
        Seq::empty()
    } else {
        let last = callbacks.len() - 1;
        let rest = law_retried_callbacks_stay_in_order(callbacks.drop_last(), retry);
        if retry[last] {
            let at = rest.push(last);
            assert(at[rest.len() as int] == last);
            assert forall|i: int| 0 <= i < callbacks.len() && #[trigger] retry[i] implies at.contains(
                i,
            ) by {
                if i < last {
                    let k = choose|k: int| 0 <= k < rest.len() && rest[k] == i;
                    assert(at[k] == i);
                }
            }
            at
        } else {
            rest
        }
    }
}

/// An operation is done unless it has to wait, and its result is what it returned.
pub proof fn law_finished<T, E>(value: T, err: E, registration: IoNotifyRegistration)
    ensures
        finished(Ok::<Blocking<T>, E>(Blocking::Ready(value))) == Some(Ok::<T, E>(value)),
        finished(Err::<Blocking<T>, E>(err)) == Some(Err::<T, E>(err)),
        finished(Ok::<Blocking<T>, E>(Blocking::Blocked(registration))) is None,
{
}

} // verus!
