//! Futexes: threads that wait for memory to change.
//!
//! Threads that wait are known by numbers.
use std::collections::BTreeMap;
use vstd::prelude::*;

use crate::addr::{self, VirtAddr};
use crate::error::Error;
use crate::user::process::memory::state::Memory;
use crate::user::process::memory::{self, ActiveVirtualMemory};

verus! {

/// A thread that waits.
#[derive(Clone, Copy, PartialEq, Eq, Structural, Debug)]
pub struct FutexWaiter {
    /// The number that the thread is known by.
    pub id: u64,
    /// Which wake-ups the thread is interested in. `None` means all of them.
    pub bitset: Option<u32>,
    /// Whether the thread doesn't wait any more.
    pub canceled: bool,
}

/// Whether a thread is interested in a wake-up.
pub open spec fn interested(waiter: Option<u32>, bitset: Option<u32>) -> bool {
    match (waiter, bitset) {
        (Some(lhs), Some(rhs)) => lhs & rhs != 0,
        _ => true,
    }
}

/// A number that isn't zero has a bit.
proof fn lemma_has_bit(bits: u32) -> (bit: u32)
    requires
        bits != 0,
    ensures
        bit < 32,
        (bits >> bit) & 1 == 1,
    decreases bits,
{
    if bits & 1 == 1 {
        assert(bits >> 0u32 == bits) by (bit_vector);
        0
    } else {
        let half = bits >> 1u32;
        assert(half != 0 && half < bits) by (bit_vector)
            requires
                bits != 0,
                bits & 1 != 1,
                half == bits >> 1u32,
        ;
        let bit = lemma_has_bit(half);
        let next = (bit + 1) as u32;
        assert(next < 32 && (bits >> next) & 1 == 1) by (bit_vector)
            requires
                half == bits >> 1u32,
                bit < 32,
                (half >> bit) & 1 == 1,
                next == bit + 1,
        ;
        next
    }
}

/// A thread is interested in a wake-up if there's a bit that both have. Without bits on one of the
/// sides, it's always interested.
pub proof fn law_interest_is_a_common_bit(waiter: Option<u32>, bitset: Option<u32>)
    ensures
        waiter is None || bitset is None ==> interested(waiter, bitset),
        waiter is Some && bitset is Some ==> (interested(waiter, bitset) <==> exists|bit: u32|
            bit < 32 && #[trigger] (waiter->0 >> bit) & 1 == 1 && (bitset->0 >> bit) & 1 == 1),
{
    if waiter is Some && bitset is Some {
        let lhs = waiter->0;
        let rhs = bitset->0;
        if interested(waiter, bitset) {
            let both = lhs & rhs;
            let bit = lemma_has_bit(both);
            assert((lhs >> bit) & 1 == 1 && (rhs >> bit) & 1 == 1) by (bit_vector)
                requires
                    both == lhs & rhs,
                    (both >> bit) & 1 == 1,
            ;
        }
        assert forall|bit: u32|
            bit < 32 && #[trigger] (lhs >> bit) & 1 == 1 && (rhs >> bit) & 1 == 1 implies lhs & rhs
            != 0 by {
            assert(lhs & rhs != 0) by (bit_vector)
                requires
                    (lhs >> bit) & 1 == 1,
                    (rhs >> bit) & 1 == 1,
            ;
        }
    }
}

/// A wake-up with all bits reaches every thread that is interested in anything.
pub proof fn law_all_bits_reach_everyone(waiter: u32)
    requires
        waiter != 0,
    ensures
        interested(Some(waiter), Some(0xffff_ffff)),
        interested(Some(0xffff_ffff), Some(waiter)),
        !interested(Some(waiter), Some(0)),
        !interested(Some(0), Some(waiter)),
{
    assert(waiter & 0xffff_ffff == waiter && 0xffff_ffff & waiter == waiter && waiter & 0 == 0 && 0
        & waiter == 0) by (bit_vector);
}

impl FutexWaiter {
    /// Returns whether the thread is interested in a wake-up.
    pub fn matches_bitset(&self, bitset: Option<u32>) -> (res: bool)
        ensures
            res == interested(self.bitset, bitset),
            self.bitset is None || bitset is None ==> res,
            self.bitset is Some && bitset is Some ==> res == exists|bit: u32|
                bit < 32 && #[trigger] (self.bitset->0 >> bit) & 1 == 1 && (bitset->0 >> bit) & 1
                    == 1,
    {
        proof {
            law_interest_is_a_common_bit(self.bitset, bitset);
        }
        match (self.bitset, bitset) {
            (None, None) | (None, Some(_)) | (Some(_), None) => true,
            (Some(lhs), Some(rhs)) => lhs & rhs != 0,
        }
    }
}

/// The threads that are woken up if a number of threads is woken up, in the order in which they
/// started to wait.
pub open spec fn woken(waiters: Seq<FutexWaiter>, num_waiters: int, bitset: Option<u32>) -> Seq<u64>
    decreases waiters.len(),
{
    if waiters.len() == 0 || num_waiters <= 0 {
        Seq::empty()
    } else if interested(waiters[0].bitset, bitset) && !waiters[0].canceled {
        seq![waiters[0].id] + woken(waiters.skip(1), num_waiters - 1, bitset)
    } else {
        woken(waiters.skip(1), num_waiters, bitset)
    }
}

/// The threads that still wait after a number of threads has been woken up. Threads that are
/// interested in the wake-up but don't wait any more are dropped on the way.
pub open spec fn still_waiting(
    waiters: Seq<FutexWaiter>,
    num_waiters: int,
    bitset: Option<u32>,
) -> Seq<FutexWaiter>
    decreases waiters.len(),
{
    if waiters.len() == 0 || num_waiters <= 0 {
        waiters
    } else if !interested(waiters[0].bitset, bitset) {
        seq![waiters[0]] + still_waiting(waiters.skip(1), num_waiters, bitset)
    } else if waiters[0].canceled {
        still_waiting(waiters.skip(1), num_waiters, bitset)
    } else {
        still_waiting(waiters.skip(1), num_waiters - 1, bitset)
    }
}

/// The threads that wait, by the address that they wait for.
pub struct Futexes {
    futexes: BTreeMap<u64, Vec<FutexWaiter>>,
}

impl View for Futexes {
    type V = Map<u64, Seq<FutexWaiter>>;

    closed spec fn view(&self) -> Map<u64, Seq<FutexWaiter>> {
        self.futexes@.map_values(|waiters: Vec<FutexWaiter>| waiters@)
    }
}

/// The threads that wait for an address.
pub open spec fn waiters_at(futexes: Map<u64, Seq<FutexWaiter>>, uaddr: u64) -> Seq<FutexWaiter> {
    if futexes.contains_key(uaddr) {
        futexes[uaddr]
    } else {
        Seq::empty()
    }
}

impl Futexes {
    /// No thread waits.
    pub fn new() -> (res: Self)
        ensures
            res@ == Map::<u64, Seq<FutexWaiter>>::empty(),
    {
        let res = Futexes { futexes: BTreeMap::new() };
        assert(res@ =~= Map::empty());
        res
    }

    /// Makes a thread wait behind all others.
    fn push(&mut self, uaddr: u64, waiter: FutexWaiter)
        ensures
            final(self)@ == old(self)@.insert(uaddr, waiters_at(old(self)@, uaddr).push(waiter)),
    {
        let mut waiters: Vec<FutexWaiter> = match self.futexes.remove(&uaddr) {
            Some(waiters) => waiters,
            None => Vec::new(),
        };
        waiters.push(waiter);
        self.futexes.insert(uaddr, waiters);
        assert(self@ =~= old(self)@.insert(uaddr, waiters_at(old(self)@, uaddr).push(waiter)));
    }

    /// Wakes up threads. Returns the threads that have been woken up.
    pub fn wake(&mut self, uaddr: VirtAddr, num_waiters: u32, bitset: Option<u32>) -> (res: Vec<
        u64,
    >)
        ensures
            res@ == woken(waiters_at(old(self)@, uaddr@), num_waiters as int, bitset),
            final(self)@ == if old(self)@.contains_key(uaddr@) {
                old(self)@.insert(
                    uaddr@,
                    still_waiting(old(self)@[uaddr@], num_waiters as int, bitset),
                )
            } else {
                old(self)@
            },
    {
        let uaddr: u64 = uaddr.as_u64();
        let mut res: Vec<u64> = Vec::new();
        let waiters: Vec<FutexWaiter> = match self.futexes.remove(&uaddr) {
            Some(waiters) => waiters,
            None => {
                assert(self@ =~= old(self)@);
                return res;
            },
        };
        let ghost all = waiters@;
        let mut rest: Vec<FutexWaiter> = Vec::new();
        let mut left: u32 = num_waiters;
        let mut i: usize = 0;
        assert(all.skip(0) =~= all);
        assert(res@ + woken(all, num_waiters as int, bitset) =~= woken(
            all,
            num_waiters as int,
            bitset,
        ));
        assert(rest@ + still_waiting(all, num_waiters as int, bitset) =~= still_waiting(
            all,
            num_waiters as int,
            bitset,
        ));
        while i < waiters.len() && left > 0
            invariant
                waiters@ == all,
                i <= all.len(),
                woken(all, num_waiters as int, bitset) == res@ + woken(
                    all.skip(i as int),
                    left as int,
                    bitset,
                ),
                still_waiting(all, num_waiters as int, bitset) == rest@ + still_waiting(
                    all.skip(i as int),
                    left as int,
                    bitset,
                ),
            decreases all.len() - i,
        {
            let waiter: FutexWaiter = waiters[i];
            assert(all.skip(i as int).skip(1) =~= all.skip(i + 1));
            let ghost next_rest = still_waiting(all.skip(i + 1), left as int, bitset);
            let ghost next_res = woken(all.skip(i + 1), left - 1, bitset);
            if !waiter.matches_bitset(bitset) {
                assert(rest@ + (seq![waiter] + next_rest) =~= rest@.push(waiter) + next_rest);
                rest.push(waiter);
            } else if !waiter.canceled {
                // Record that the thread was woken up.
                assert(res@ + (seq![waiter.id] + next_res) =~= res@.push(waiter.id) + next_res);
                res.push(waiter.id);
                left = left - 1;
            }
            i = i + 1;
        }
        assert(woken(all.skip(i as int), left as int, bitset) =~= Seq::empty());
        assert(still_waiting(all.skip(i as int), left as int, bitset) =~= all.skip(i as int));
        assert(res@ + Seq::<u64>::empty() =~= res@);
        let ghost before = rest@;
        let ghost from = i as int;
        assert(before + all.subrange(from, from) =~= before);
        while i < waiters.len()
            invariant
                waiters@ == all,
                from <= i <= all.len(),
                0 <= from,
                rest@ == before + all.subrange(from, i as int),
            decreases all.len() - i,
        {
            rest.push(waiters[i]);
            i = i + 1;
            assert(rest@ =~= before + all.subrange(from, i as int));
        }
        assert(all.subrange(from, i as int) =~= all.skip(from));
        self.futexes.insert(uaddr, rest);
        assert(self@ =~= old(self)@.insert(
            uaddr,
            still_waiting(old(self)@[uaddr], num_waiters as int, bitset),
        ));
        res
    }
}

/// The number that four bytes stand for.
pub open spec fn number(bytes: Seq<u8>) -> int {
    bytes[0] + 0x100 * bytes[1] + 0x1_0000 * bytes[2] + 0x100_0000 * bytes[3]
}

/// `bytemuck::bytes_of_mut`: fills the bytes of a number, which are in little endian order.
#[verifier::external_body]
fn number_from_bytes(bytes: &[u8]) -> (res: u32)
    requires
        bytes@.len() == 4,
    ensures
        res == number(bytes@),
{
    let mut value: u32 = 0;
    bytemuck::bytes_of_mut(&mut value).copy_from_slice(bytes);
    u32::from_le(value)
}

/// The number in memory at an address.
pub open spec fn number_at(memory: Memory, address: int) -> int {
    number(Seq::new(4, |i: int| memory.byte(address + i)))
}

/// Whether a number can be read from memory at an address.
pub open spec fn number_readable(memory: Memory, address: int) -> bool {
    memory.reach(false, memory::page_start(address), address + 4) == address + 4
}

/// The outcome of comparing memory with a value.
pub open spec fn check_result(memory: Memory, address: int, value: u32) -> Result<(), Error> {
    if !number_readable(memory, address) {
        Err(Error::Fault)
    } else if number_at(memory, address) != value {
        Err(Error::Again)
    } else {
        Ok(())
    }
}

/// Checks that memory still has a value.
pub fn check_value(vm: &mut ActiveVirtualMemory<'_>, uaddr: VirtAddr, value: u32) -> (res: Result<
    (),
    Error,
>)
    requires
        old(vm).wf(),
        addr::canonical_form(uaddr@ + 3) is Some,
        old(vm).memory().can_access(false, uaddr@ as int, 4),
    ensures
        final(vm).wf(),
        final(vm).same_space(*old(vm)),
        *final(final(vm).virtual_memory) == *final(old(vm).virtual_memory),
        res == check_result(old(vm).memory(), uaddr@ as int, value),
        final(vm).memory() == old(vm).memory().loaded(
            memory::page_start(uaddr@ as int),
            old(vm).memory().reach(false, memory::page_start(uaddr@ as int), uaddr@ + 4),
        ),
{
    let ghost memory = vm.memory();
    let mut bytes: Vec<u8> = Vec::new();
    bytes.resize(4, 0);
    match vm.read(uaddr, bytes.as_mut_slice()) {
        Ok(()) => {},
        Err(err) => {
            return Err(err);
        },
    }
    assert(bytes@ =~= Seq::new(4, |i: int| memory.byte(uaddr@ + i)));
    if number_from_bytes(bytes.as_slice()) != value {
        return Err(Error::Again);
    }
    Ok(())
}

/// The list of threads with one of them marked as not waiting any more.
pub open spec fn without_waiter(waiters: Seq<FutexWaiter>, id: u64) -> Seq<FutexWaiter> {
    waiters.map_values(
        |waiter: FutexWaiter|
            FutexWaiter { canceled: waiter.canceled || waiter.id == id, ..waiter },
    )
}

impl Futexes {
    /// Makes a thread wait if memory still has a value.
    pub fn wait(
        &mut self,
        uaddr: VirtAddr,
        value: u32,
        bitset: Option<u32>,
        id: u64,
        vm: &mut ActiveVirtualMemory<'_>,
    ) -> (res: Result<(), Error>)
        requires
            old(vm).wf(),
            addr::canonical_form(uaddr@ + 3) is Some,
            old(vm).memory().can_access(false, uaddr@ as int, 4),
        ensures
            final(vm).wf(),
            final(vm).same_space(*old(vm)),
            *final(final(vm).virtual_memory) == *final(old(vm).virtual_memory),
            res == check_result(old(vm).memory(), uaddr@ as int, value),
            final(vm).memory() == old(vm).memory().loaded(
                memory::page_start(uaddr@ as int),
                old(vm).memory().reach(false, memory::page_start(uaddr@ as int), uaddr@ + 4),
            ),
            final(self)@ == if res is Ok {
                old(self)@.insert(
                    uaddr@,
                    waiters_at(old(self)@, uaddr@).push(
                        (FutexWaiter { id, bitset, canceled: false }),
                    ),
                )
            } else {
                old(self)@
            },
            res is Ok ==> final(self)@.contains_key(uaddr@) && final(self)@[uaddr@]
                == if old(self)@.contains_key(uaddr@) {
                old(self)@[uaddr@].push((FutexWaiter { id, bitset, canceled: false }))
            } else {
                seq![FutexWaiter { id, bitset, canceled: false }]
            },
    {
        match check_value(vm, uaddr, value) {
            Ok(()) => {},
            Err(err) => {
                return Err(err);
            },
        }
        self.push(uaddr.as_u64(), FutexWaiter { id, bitset, canceled: false });
        assert(Seq::<FutexWaiter>::empty().push((FutexWaiter { id, bitset, canceled: false }))
            =~= seq![FutexWaiter { id, bitset, canceled: false }]);
        Ok(())
    }

    /// Records that a thread doesn't wait for an address any more.
    pub fn cancel(&mut self, uaddr: VirtAddr, id: u64)
        ensures
            final(self)@ == if old(self)@.contains_key(uaddr@) {
                old(self)@.insert(uaddr@, without_waiter(old(self)@[uaddr@], id))
            } else {
                old(self)@
            },
    {
        let uaddr: u64 = uaddr.as_u64();
        let mut waiters: Vec<FutexWaiter> = match self.futexes.remove(&uaddr) {
            Some(waiters) => waiters,
            None => {
                assert(self@ =~= old(self)@);
                return;
            },
        };
        let ghost all = waiters@;
        let mut i: usize = 0;
        while i < waiters.len()
            invariant
                i <= waiters@.len(),
                waiters@.len() == all.len(),
                forall|j: int| 0 <= j < i ==> waiters@[j] == without_waiter(all, id)[j],
                forall|j: int| i <= j < all.len() ==> waiters@[j] == all[j],
            decreases all.len() - i,
        {
            let mut waiter: FutexWaiter = waiters[i];
            if waiter.id == id {
                waiter.canceled = true;
            }
            waiters.set(i, waiter);
            i = i + 1;
        }
        assert(waiters@ =~= without_waiter(all, id));
        self.futexes.insert(uaddr, waiters);
        assert(self@ =~= old(self)@.insert(uaddr, without_waiter(old(self)@[uaddr], id)));
    }
}

/// Decides how a wait ends. Being woken up takes precedence over the deadline. `None` if the wait
/// goes on.
pub fn wait_outcome(received: bool, deadline_passed: bool) -> (res: Option<Result<(), Error>>)
    ensures
        res == if received {
            Some(Ok::<(), Error>(()))
        } else if deadline_passed {
            Some(Err(Error::TimedOut))
        } else {
            None
        },
{
    if received {
        Some(Ok(()))
    } else if deadline_passed {
        Some(Err(Error::TimedOut))
    } else {
        None
    }
}

/// No more threads are woken up than asked for. If fewer are woken up, no thread that is interested
/// and waits is left.
pub proof fn law_wake_count(waiters: Seq<FutexWaiter>, num_waiters: int, bitset: Option<u32>)
    requires
        num_waiters >= 0,
    ensures
        woken(waiters, num_waiters, bitset).len() <= num_waiters,
        woken(waiters, num_waiters, bitset).len() < num_waiters ==> forall|i: int|
            0 <= i < still_waiting(waiters, num_waiters, bitset).len() ==> !interested(
                (#[trigger] still_waiting(waiters, num_waiters, bitset)[i]).bitset,
                bitset,
            ),
    decreases waiters.len(),
{
    if waiters.len() > 0 && num_waiters > 0 {
        let rest = waiters.skip(1);
        law_wake_count(rest, num_waiters, bitset);
        law_wake_count(rest, num_waiters - 1, bitset);
    }
}

/// A thread that is interested in a wake-up and waits is woken up if fewer threads wait before it than
/// are woken up.
pub proof fn law_first_waiters_are_woken(
    waiters: Seq<FutexWaiter>,
    num_waiters: int,
    bitset: Option<u32>,
    i: int,
)
    requires
        0 <= i < waiters.len(),
        i < num_waiters,
        !waiters[i].canceled,
        interested(waiters[i].bitset, bitset),
    ensures
        woken(waiters, num_waiters, bitset).contains(waiters[i].id),
    decreases waiters.len(),
{
    let up = woken(waiters, num_waiters, bitset);
    if i == 0 {
        assert(up[0] == waiters[0].id);
    } else {
        let rest = waiters.skip(1);
        let first = waiters[0];
        let taken = interested(first.bitset, bitset) && !first.canceled;
        let num_left = if taken {
            num_waiters - 1
        } else {
            num_waiters
        };
        law_first_waiters_are_woken(rest, num_left, bitset, i - 1);
        assert(rest[i - 1] == waiters[i]);
        let rest_up = woken(rest, num_left, bitset);
        let k = choose|k: int| 0 <= k < rest_up.len() && rest_up[k] == waiters[i].id;
        if taken {
            assert(up[k + 1] == waiters[i].id);
        } else {
            assert(up[k] == waiters[i].id);
        }
    }
}

/// A thread that is interested in a wake-up and waits is either woken up or still waits.
pub proof fn law_no_waiter_is_lost(
    waiters: Seq<FutexWaiter>,
    num_waiters: int,
    bitset: Option<u32>,
    i: int,
)
    requires
        0 <= i < waiters.len(),
        !waiters[i].canceled,
    ensures
        woken(waiters, num_waiters, bitset).contains(waiters[i].id) || still_waiting(
            waiters,
            num_waiters,
            bitset,
        ).contains(waiters[i]),
    decreases waiters.len(),
{
    let up = woken(waiters, num_waiters, bitset);
    let left = still_waiting(waiters, num_waiters, bitset);
    if num_waiters <= 0 {
        assert(left[i] == waiters[i]);
    } else {
        let rest = waiters.skip(1);
        let first = waiters[0];
        let taken = interested(first.bitset, bitset) && !first.canceled;
        let num_left = if taken {
            num_waiters - 1
        } else {
            num_waiters
        };
        if i == 0 {
            if taken {
                assert(up[0] == first.id);
            } else {
                assert(left[0] == first);
            }
        } else {
            law_no_waiter_is_lost(rest, num_left, bitset, i - 1);
            assert(rest[i - 1] == waiters[i]);
            let rest_up = woken(rest, num_left, bitset);
            let rest_left = still_waiting(rest, num_left, bitset);
            if rest_up.contains(waiters[i].id) {
                let k = choose|k: int| 0 <= k < rest_up.len() && rest_up[k] == waiters[i].id;
                if taken {
                    assert(up[k + 1] == waiters[i].id);
                } else {
                    assert(up[k] == waiters[i].id);
                }
            } else {
                let k = choose|k: int| 0 <= k < rest_left.len() && rest_left[k] == waiters[i];
                if !interested(first.bitset, bitset) {
                    assert(left[k + 1] == waiters[i]);
                } else {
                    assert(left[k] == waiters[i]);
                }
            }
        }
    }
}

/// Indices move by one if there's another element in front.
proof fn lemma_moved(indices: Seq<int>, front: bool) -> (res: Seq<int>)
    requires
        forall|k: int| 0 <= k < indices.len() ==> 0 <= #[trigger] indices[k],
        forall|j: int, k: int| 0 <= j < k < indices.len() ==> indices[j] < indices[k],
    ensures
        res == (if front {
            seq![0int]
        } else {
            Seq::empty()
        }) + indices.map_values(|i: int| i + 1),
        forall|k: int| 0 <= k < res.len() ==> 0 <= #[trigger] res[k],
        forall|j: int, k: int| 0 <= j < k < res.len() ==> res[j] < res[k],
        res.contains(0) == front,
        forall|i: int| i > 0 ==> #[trigger] res.contains(i) == indices.contains(i - 1),
{
    let moved = indices.map_values(|i: int| i + 1);
    let res = (if front {
        seq![0int]
    } else {
        Seq::empty()
    }) + moved;
    let shift: int = if front {
        1
    } else {
        0
    };
    assert(forall|k: int| shift <= k < res.len() ==> #[trigger] res[k] == indices[k - shift] + 1);
    if front {
        assert(res[0] == 0);
    }
    assert forall|i: int| i > 0 implies #[trigger] res.contains(i) == indices.contains(i - 1) by {
        if indices.contains(i - 1) {
            let k = choose|k: int| 0 <= k < indices.len() && indices[k] == i - 1;
            assert(res[k + shift] == i);
        }
        if res.contains(i) {
            let k = choose|k: int| 0 <= k < res.len() && res[k] == i;
            assert(indices[k - shift] == i - 1);
        }
    }
    res
}

/// Which threads are woken up and which ones still wait.
proof fn lemma_wake_split(
    waiters: Seq<FutexWaiter>,
    num_waiters: int,
    bitset: Option<u32>,
) -> (res: (Seq<int>, Seq<int>))
    requires
        num_waiters >= 0,
    ensures
        ({
            let (up, left) = res;
            let woken = woken(waiters, num_waiters, bitset);
            let waiting = still_waiting(waiters, num_waiters, bitset);
            &&& up.len() == woken.len() <= num_waiters
            &&& left.len() == waiting.len()
            &&& forall|k: int|
                0 <= k < up.len() ==> 0 <= #[trigger] up[k] < waiters.len() && woken[k]
                    == waiters[up[k]].id && !waiters[up[k]].canceled && interested(
                    waiters[up[k]].bitset,
                    bitset,
                )
            &&& forall|k: int|
                0 <= k < left.len() ==> 0 <= #[trigger] left[k] < waiters.len() && waiting[k]
                    == waiters[left[k]]
            &&& forall|j: int, k: int| 0 <= j < k < up.len() ==> up[j] < up[k]
            &&& forall|j: int, k: int| 0 <= j < k < left.len() ==> left[j] < left[k]
            &&& forall|i: int| #![trigger waiters[i]]
                0 <= i < waiters.len() ==> {
                    &&& !(up.contains(i) && left.contains(i))
                    &&& up.contains(i) || left.contains(i) || (waiters[i].canceled && interested(
                        waiters[i].bitset,
                        bitset,
                    ))
                    &&& left.contains(i) && interested(waiters[i].bitset, bitset) ==> up.len()
                        == num_waiters && forall|k: int|
                        0 <= k < up.len() ==> #[trigger] up[k] < i
                }
        }),
    decreases waiters.len(),
{
    if waiters.len() == 0 || num_waiters == 0 {
        let left = Seq::new(waiters.len(), |i: int| i);
        assert forall|i: int| 0 <= i < waiters.len() implies left.contains(i) by {
            assert(left[i] == i);
        }
        (Seq::empty(), left)
    } else {
        let rest = waiters.skip(1);
        let first = waiters[0];
        let skipped = !interested(first.bitset, bitset);
        let taken = !skipped && !first.canceled;
        let num_left = if taken {
            num_waiters - 1
        } else {
            num_waiters
        };
        let (rest_up, rest_left) = lemma_wake_split(rest, num_left, bitset);
        let up = lemma_moved(rest_up, taken);
        let left = lemma_moved(rest_left, skipped);
        let woken = woken(waiters, num_waiters, bitset);
        let waiting = still_waiting(waiters, num_waiters, bitset);
        let up_shift: int = if taken {
            1
        } else {
            0
        };
        let left_shift: int = if skipped {
            1
        } else {
            0
        };
        assert forall|k: int| 0 <= k < up.len() implies 0 <= #[trigger] up[k] < waiters.len()
            && woken[k] == waiters[up[k]].id && !waiters[up[k]].canceled && interested(
            waiters[up[k]].bitset,
            bitset,
        ) by {
            if k >= up_shift {
                assert(up[k] == rest_up[k - up_shift] + 1);
                assert(rest[rest_up[k - up_shift]] == waiters[up[k]]);
            }
        }
        assert forall|k: int| 0 <= k < left.len() implies 0 <= #[trigger] left[k] < waiters.len()
            && waiting[k] == waiters[left[k]] by {
            if k >= left_shift {
                assert(left[k] == rest_left[k - left_shift] + 1);
                assert(rest[rest_left[k - left_shift]] == waiters[left[k]]);
            }
        }
        assert forall|i: int| #![trigger waiters[i]] 0 <= i < waiters.len() implies {
            &&& !(up.contains(i) && left.contains(i))
            &&& up.contains(i) || left.contains(i) || (waiters[i].canceled && interested(
                waiters[i].bitset,
                bitset,
            ))
            &&& left.contains(i) && interested(waiters[i].bitset, bitset) ==> up.len()
                == num_waiters && forall|k: int| 0 <= k < up.len() ==> #[trigger] up[k] < i
        } by {
            if i > 0 {
                assert(rest[i - 1] == waiters[i]);
                if left.contains(i) && interested(waiters[i].bitset, bitset) {
                    assert forall|k: int| 0 <= k < up.len() implies #[trigger] up[k] < i by {
                        if k >= up_shift {
                            assert(up[k] == rest_up[k - up_shift] + 1);
                        }
                    }
                }
            }
        }
        (up, left)
    }
}

/// A wake-up goes through the threads that wait in the order in which they started to wait. A thread
/// is woken up if it waits and either has a bit in common with the wake-up or one of them has no
/// bits. There are other such threads that wait only if as many threads as asked for have been
/// woken up, and they all come later. Nothing else is taken out but threads that don't wait any more.
pub proof fn law_wake_order(
    waiters: Seq<FutexWaiter>,
    num_waiters: int,
    bitset: Option<u32>,
) -> (res: (Seq<int>, Seq<int>))
    requires
        num_waiters >= 0,
    ensures
        ({
            let (up, left) = res;
            let woken = woken(waiters, num_waiters, bitset);
            let waiting = still_waiting(waiters, num_waiters, bitset);
            &&& up.len() == woken.len() <= num_waiters
            &&& left.len() == waiting.len()
            &&& forall|k: int|
                0 <= k < up.len() ==> 0 <= #[trigger] up[k] < waiters.len() && woken[k]
                    == waiters[up[k]].id && !waiters[up[k]].canceled && (bitset is None
                    || waiters[up[k]].bitset is None || exists|bit: u32|
                    bit < 32 && #[trigger] (waiters[up[k]].bitset->0 >> bit) & 1 == 1 && (bitset->0
                        >> bit) & 1 == 1)
            &&& forall|k: int|
                0 <= k < left.len() ==> 0 <= #[trigger] left[k] < waiters.len() && waiting[k]
                    == waiters[left[k]]
            &&& forall|j: int, k: int| 0 <= j < k < up.len() ==> up[j] < up[k]
            &&& forall|j: int, k: int| 0 <= j < k < left.len() ==> left[j] < left[k]
            &&& forall|i: int| #![trigger waiters[i]]
                0 <= i < waiters.len() ==> {
                    let meant = bitset is None || waiters[i].bitset is None || exists|bit: u32|
                        bit < 32 && #[trigger] (waiters[i].bitset->0 >> bit) & 1 == 1 && (bitset->0
                            >> bit) & 1 == 1;
                    &&& !(up.contains(i) && left.contains(i))
                    &&& up.contains(i) || left.contains(i) || (waiters[i].canceled && meant)
                    &&& left.contains(i) && meant ==> up.len() == num_waiters && forall|k: int|
                        0 <= k < up.len() ==> #[trigger] up[k] < i
                }
        }),
{
    let (up, left) = lemma_wake_split(waiters, num_waiters, bitset);
    assert forall|k: int| 0 <= k < up.len() implies bitset is None || waiters[#[trigger] up[k]].bitset
        is None || exists|bit: u32|
        bit < 32 && #[trigger] (waiters[up[k]].bitset->0 >> bit) & 1 == 1 && (bitset->0 >> bit) & 1
            == 1 by {
        law_interest_is_a_common_bit(waiters[up[k]].bitset, bitset);
    }
    assert forall|i: int| #![trigger waiters[i]] 0 <= i < waiters.len() implies (interested(
        waiters[i].bitset,
        bitset,
    ) <==> (bitset is None || waiters[i].bitset is None || exists|bit: u32|
        bit < 32 && #[trigger] (waiters[i].bitset->0 >> bit) & 1 == 1 && (bitset->0 >> bit) & 1
            == 1)) by {
        law_interest_is_a_common_bit(waiters[i].bitset, bitset);
    }
    (up, left)
}

/// A thread that doesn't wait any more isn't woken up. The other threads, their order and what they
/// are interested in stay the same.
pub proof fn law_canceled_waiters_are_not_woken(
    waiters: Seq<FutexWaiter>,
    id: u64,
    num_waiters: int,
    bitset: Option<u32>,
)
    requires
        num_waiters >= 0,
    ensures
        without_waiter(waiters, id).len() == waiters.len(),
        forall|i: int|
            0 <= i < waiters.len() ==> {
                let waiter = #[trigger] without_waiter(waiters, id)[i];
                &&& waiter.id == waiters[i].id
                &&& waiter.bitset == waiters[i].bitset
                &&& waiter.canceled == (waiters[i].canceled || waiters[i].id == id)
            },
        !woken(without_waiter(waiters, id), num_waiters, bitset).contains(id),
{
    let new = without_waiter(waiters, id);
    let (up, left) = law_wake_order(new, num_waiters, bitset);
    let woken = woken(new, num_waiters, bitset);
    assert forall|k: int| 0 <= k < woken.len() implies woken[k] != id by {
        assert(!new[up[k]].canceled);
    }
}

/// Memory is compared as four bytes, the least significant one first. The comparison faults if not
/// all of them can be read.
pub proof fn law_memory_is_compared(memory: Memory, address: int, value: u32)
    requires
        0 <= address <= u64::MAX - 3,
    ensures
        ({
            let first = (address - address % 4096) as u64;
            let last = (address + 3 - (address + 3) % 4096) as u64;
            let readable = memory.pages.contains_key(first) && memory.pages[first].permissions.read
                && memory.pages.contains_key(last) && memory.pages[last].permissions.read;
            let same = value == memory.byte(address) + 256 * memory.byte(address + 1) + 256 * 256
                * memory.byte(address + 2) + 256 * 256 * 256 * memory.byte(address + 3);
            &&& check_result(memory, address, value) is Ok <==> readable && same
            &&& check_result(memory, address, value) == Err::<(), Error>(Error::Again) <==> readable
                && !same
            &&& check_result(memory, address, value) == Err::<(), Error>(Error::Fault)
                <==> !readable
        }),
{
    reveal_with_fuel(Memory::reach, 3);
}

} // verus!
