//! Dispatching syscalls.
//!
//! Handlers are known by numbers.
use vstd::prelude::*;

use crate::decimal;
use crate::error::Error;

verus! {

/// The arguments of a syscall.
#[derive(Clone, Copy, Debug)]
pub struct SyscallArgs {
    /// The ABI used during the syscall.
    pub abi: Abi,
    /// Which syscall is meant.
    pub no: u64,
    /// The arguments.
    pub args: [u64; 6],
}

/// The ABI used during a syscall.
#[derive(Clone, Copy, PartialEq, Eq, Structural, Debug)]
pub enum Abi {
    I386,
    Amd64,
}

/// What a syscall returns.
pub type SyscallResult = Result<u64, Error>;

/// A type that an argument of a syscall can have.
pub trait SyscallArg: Sized {
    /// The value that an argument stands for.
    spec fn parsed(value: u64) -> Result<Self, Error>;

    /// How an argument is displayed.
    spec fn displayed(value: u64) -> Seq<u8>;

    /// Interprets an argument.
    fn parse(value: u64, abi: Abi) -> (res: Result<Self, Error>)
        ensures
            res == Self::parsed(value),
    ;

    /// Displays an argument.
    fn display(value: u64, abi: Abi) -> (res: Vec<u8>)
        ensures
            res@ == Self::displayed(value),
    ;
}

/// The text ` (out of bounds)`.
pub open spec fn out_of_bounds() -> Seq<u8> {
    seq![32u8, 40, 111, 117, 116, 32, 111, 102, 32, 98, 111, 117, 110, 100, 115, 41]
}

impl SyscallArg for u32 {
    open spec fn parsed(value: u64) -> Result<Self, Error> {
        if value <= u32::MAX {
            Ok(value as u32)
        } else {
            Err(Error::Inval)
        }
    }

    open spec fn displayed(value: u64) -> Seq<u8> {
        if value <= u32::MAX {
            decimal::digits(value as nat)
        } else {
            decimal::digits(value as nat) + out_of_bounds()
        }
    }

    fn parse(value: u64, abi: Abi) -> (res: Result<Self, Error>) {
        if value <= 0xffff_ffff {
            Ok(value as u32)
        } else {
            Err(Error::Inval)
        }
    }

    fn display(value: u64, abi: Abi) -> (res: Vec<u8>) {
        let mut res: Vec<u8> = decimal::decimal(value);
        if value > 0xffff_ffff {
            let mut note: Vec<u8> = vec![
                32u8,
                40,
                111,
                117,
                116,
                32,
                111,
                102,
                32,
                98,
                111,
                117,
                110,
                100,
                115,
                41,
            ];
            assert(note@ =~= out_of_bounds());
            let ghost before = res@;
            res.append(&mut note);
            assert(res@ =~= before + out_of_bounds());
        }
        res
    }
}

/// The number of syscalls that can be handled on i386.
pub const MAX_SYSCALL_I386_HANDLER: usize = 385;

/// The number of syscalls that can be handled on amd64.
pub const MAX_SYSCALL_AMD64_HANDLER: usize = 327;

/// The handlers for all syscalls.
pub struct SyscallHandlers {
    i386_handlers: Vec<Option<u64>>,
    amd64_handlers: Vec<Option<u64>>,
}

/// A list of absent handlers.
fn no_handlers(len: usize) -> (res: Vec<Option<u64>>)
    ensures
        res@ == Seq::new(len as nat, |i: int| None::<u64>),
{
    let mut res: Vec<Option<u64>> = Vec::new();
    let mut i: usize = 0;
    while i < len
        invariant
            i <= len,
            res@ == Seq::new(i as nat, |i: int| None::<u64>),
        decreases len - i,
    {
        res.push(None);
        i = i + 1;
        assert(res@ =~= Seq::new(i as nat, |i: int| None::<u64>));
    }
    res
}

impl SyscallHandlers {
    /// The handlers for the syscalls of an ABI.
    pub closed spec fn handlers(self, abi: Abi) -> Seq<Option<u64>> {
        match abi {
            Abi::I386 => self.i386_handlers@,
            Abi::Amd64 => self.amd64_handlers@,
        }
    }

    /// There is room for all handlers.
    pub open spec fn wf(self) -> bool {
        &&& self.handlers(Abi::I386).len() == MAX_SYSCALL_I386_HANDLER
        &&& self.handlers(Abi::Amd64).len() == MAX_SYSCALL_AMD64_HANDLER
    }

    /// The handler for a syscall.
    pub open spec fn handler(self, abi: Abi, no: int) -> Option<u64> {
        if 0 <= no < self.handlers(abi).len() {
            self.handlers(abi)[no]
        } else {
            None
        }
    }

    /// Creates a table without handlers.
    pub fn new() -> (res: Self)
        ensures
            res.wf(),
            forall|abi: Abi, no: int| #[trigger] res.handler(abi, no) is None,
    {
        SyscallHandlers {
            i386_handlers: no_handlers(MAX_SYSCALL_I386_HANDLER),
            amd64_handlers: no_handlers(MAX_SYSCALL_AMD64_HANDLER),
        }
    }

    /// Registers a handler for a syscall, which has a number for each ABI that it is available
    /// with.
    pub fn register(&mut self, no_i386: Option<usize>, no_amd64: Option<usize>, handler: u64)
        requires
            old(self).wf(),
            no_i386 matches Some(no) ==> no < MAX_SYSCALL_I386_HANDLER,
            no_amd64 matches Some(no) ==> no < MAX_SYSCALL_AMD64_HANDLER,
        ensures
            final(self).wf(),
            forall|no: int| #[trigger]
                final(self).handler(Abi::I386, no) == if no_i386 matches Some(given) && given == no {
                    Some(handler)
                } else {
                    old(self).handler(Abi::I386, no)
                },
            forall|no: int| #[trigger]
                final(self).handler(Abi::Amd64, no) == if no_amd64 matches Some(given) && given
                    == no {
                    Some(handler)
                } else {
                    old(self).handler(Abi::Amd64, no)
                },
    {
        match no_i386 {
            Some(no) => {
                self.i386_handlers.set(no, Some(handler));
            },
            None => {},
        }
        match no_amd64 {
            Some(no) => {
                self.amd64_handlers.set(no, Some(handler));
            },
            None => {},
        }
    }

    /// Finds the handler that executes a syscall.
    pub fn execute(&self, args: SyscallArgs) -> (res: Result<u64, Error>)
        ensures
            res == (match self.handler(args.abi, args.no as int) {
                Some(handler) => Ok::<u64, Error>(handler),
                None => Err(Error::NoSys),
            }),
    {
        let handlers: &Vec<Option<u64>> = match args.abi {
            Abi::I386 => &self.i386_handlers,
            Abi::Amd64 => &self.amd64_handlers,
        };
        if args.no >= handlers.len() as u64 {
            return Err(Error::NoSys);
        }
        match handlers[args.no as usize] {
            Some(handler) => Ok(handler),
            None => Err(Error::NoSys),
        }
    }
}

/// The number of syscalls that are accounted for.
pub const NUM_TIMES: usize = 512;

/// How much time has been spent in each syscall and how often each has been executed.
pub struct SyscallTimes {
    /// How much time has been spent in each syscall.
    pub times: Vec<u64>,
    /// How often each syscall has been executed.
    pub counts: Vec<u64>,
}

impl SyscallTimes {
    /// All syscalls are accounted for.
    pub open spec fn wf(self) -> bool {
        self.times@.len() == NUM_TIMES && self.counts@.len() == NUM_TIMES
    }

    /// No syscall has been executed.
    pub fn new() -> (res: Self)
        ensures
            res.wf(),
            res.times@ == Seq::new(NUM_TIMES as nat, |i: int| 0u64),
            res.counts@ == Seq::new(NUM_TIMES as nat, |i: int| 0u64),
    {
        let mut times: Vec<u64> = Vec::new();
        times.resize(NUM_TIMES, 0);
        let mut counts: Vec<u64> = Vec::new();
        counts.resize(NUM_TIMES, 0);
        assert(times@ =~= Seq::new(NUM_TIMES as nat, |i: int| 0u64));
        assert(counts@ =~= Seq::new(NUM_TIMES as nat, |i: int| 0u64));
        SyscallTimes { times, counts }
    }

    /// Records that a syscall has been executed. The numbers wrap around.
    pub fn record(&mut self, no: usize, duration: u64)
        requires
            old(self).wf(),
            no < NUM_TIMES,
        ensures
            final(self).wf(),
            final(self).times@ == old(self).times@.update(
                no as int,
                ((old(self).times@[no as int] + duration) % 0x1_0000_0000_0000_0000) as u64,
            ),
            final(self).counts@ == old(self).counts@.update(
                no as int,
                ((old(self).counts@[no as int] + 1) % 0x1_0000_0000_0000_0000) as u64,
            ),
    {
        self.times.set(no, self.times[no].wrapping_add(duration));
        self.counts.set(no, self.counts[no].wrapping_add(1));
    }
}

/// A computation whose duration is measured.
pub struct ProfilingFuture<F> {
    /// The computation.
    pub future: F,
    /// How much time has been spent so far.
    pub duration: u64,
}

impl<F> ProfilingFuture<F> {
    /// Starts to measure a computation.
    pub fn new(future: F) -> (res: Self)
        ensures
            res.future == future,
            res.duration == 0,
    {
        ProfilingFuture { future, duration: 0 }
    }

    /// Adds the time between two points to the duration. If the computation is done, the result is
    /// returned together with the duration.
    pub fn finish_poll<T>(&mut self, start: u64, end: u64, value: Option<T>) -> (res: Option<
        (T, u64),
    >)
        requires
            start <= end,
            old(self).duration + (end - start) <= u64::MAX,
        ensures
            final(self).future == old(self).future,
            final(self).duration == old(self).duration + (end - start),
            res == (match value {
                Some(value) => Some((value, final(self).duration)),
                None => None,
            }),
    {
        self.duration = self.duration + (end - start);
        match value {
            Some(value) => Some((value, self.duration)),
            None => None,
        }
    }
}

/// An argument of 32 bits is its value, and an argument with more bits is refused.
pub proof fn law_arguments(value: u64)
    ensures
        value < 0x1_0000_0000 ==> (<u32 as SyscallArg>::parsed(value) matches Ok(parsed) && parsed
            == value),
        value >= 0x1_0000_0000 ==> <u32 as SyscallArg>::parsed(value) == Err::<u32, Error>(
            Error::Inval,
        ),
{
}

/// An argument of 32 bits is displayed as a decimal number. If it has more bits, a note follows.
pub proof fn law_displayed_arguments(value: u64)
    ensures
        ({
            let text = <u32 as SyscallArg>::displayed(value);
            let note = " (out of bounds)"@.map_values(|c: char| c as u8);
            let len = if value < 0x1_0000_0000 {
                text.len() as int
            } else {
                text.len() - note.len()
            };
            &&& 0 < len
            &&& decimal::value(text.take(len)) == value
            &&& decimal::all_digits(text.take(len))
            &&& value > 0 ==> text[0] != 48
            &&& value >= 0x1_0000_0000 ==> text.skip(len) == note
        }),
{
    reveal_strlit(" (out of bounds)");
    let text = <u32 as SyscallArg>::displayed(value);
    let note = " (out of bounds)"@.map_values(|c: char| c as u8);
    let digits = decimal::digits(value as nat);
    decimal::law_digits_have_value(value as nat);
    decimal::law_digits(value as nat);
    assert(out_of_bounds() =~= note);
    assert(text.take(digits.len() as int) =~= digits);
    if value >= 0x1_0000_0000 {
        assert(text.skip(digits.len() as int) =~= note);
    }
}

impl SyscallHandlers {
    /// There are 385 syscalls on i386 and 327 on amd64. Those with other numbers have no handlers.
    pub proof fn law_numbers_of_syscalls(self, no: int)
        requires
            self.wf(),
        ensures
            no < 0 || no >= 385 ==> self.handler(Abi::I386, no) is None,
            no < 0 || no >= 327 ==> self.handler(Abi::Amd64, no) is None,
            0 <= no < 385 ==> self.handler(Abi::I386, no) == self.handlers(Abi::I386)[no],
            0 <= no < 327 ==> self.handler(Abi::Amd64, no) == self.handlers(Abi::Amd64)[no],
    {
    }
}

} // verus!
