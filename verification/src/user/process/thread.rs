//! Threads.
//!
//! Processes, address spaces, tables of file descriptors and threads that wait for others are known
//! by numbers.
use std::collections::{BTreeMap, VecDeque};
use vstd::prelude::*;

use crate::addr::{self, VirtAddr};
use crate::error::Error;
use crate::user::process::memory::mapping::{Backing, MemoryPermissions};
use crate::user::process::memory::{request, ActiveVirtualMemory};

verus! {

/// Returns the next number for a thread. The numbers wrap around.
pub fn new_tid(counter: &mut u32) -> (res: u32)
    ensures
        res == *old(counter),
        *final(counter) == if *old(counter) == u32::MAX {
            0
        } else {
            *old(counter) + 1
        },
{
    let tid: u32 = *counter;
    *counter = tid.wrapping_add(1);
    tid
}

/// All threads by their numbers.
pub struct Threads {
    map: BTreeMap<u32, u64>,
}

impl View for Threads {
    type V = Map<u32, u64>;

    closed spec fn view(&self) -> Map<u32, u64> {
        self.map@
    }
}

impl Threads {
    /// There are no threads.
    pub fn new() -> (res: Self)
        ensures
            res@ == Map::<u32, u64>::empty(),
    {
        Threads { map: BTreeMap::new() }
    }

    /// Adds a thread. Returns its number.
    pub fn add(&mut self, tid: u32, thread: u64) -> (res: u32)
        ensures
            res == tid,
            final(self)@ == old(self)@.insert(tid, thread),
    {
        self.map.insert(tid, thread);
        tid
    }

    /// Finds a thread.
    pub fn by_id(&self, tid: u32) -> (res: Option<u64>)
        ensures
            res == if self@.contains_key(tid) {
                Some(self@[tid])
            } else {
                None
            },
    {
        match self.map.get(&tid) {
            Some(thread) => Some(*thread),
            None => None,
        }
    }

    /// Removes a thread.
    pub fn remove(&mut self, tid: u32)
        ensures
            final(self)@ == old(self)@.remove(tid),
    {
        self.map.remove(&tid);
        assert(self@ =~= old(self)@.remove(tid));
    }
}

/// The registers of the kernel that are kept while user space is running.
#[derive(Clone, Copy, PartialEq, Eq, Structural, Debug)]
pub struct KernelRegisters {
    pub rax: u64,
    pub rbx: u64,
    pub rcx: u64,
    pub rdx: u64,
    pub rsi: u64,
    pub rdi: u64,
    pub rsp: u64,
    pub rbp: u64,
    pub r8: u64,
    pub r9: u64,
    pub r10: u64,
    pub r11: u64,
    pub r12: u64,
    pub r13: u64,
    pub r14: u64,
    pub r15: u64,
    pub rflags: u64,
}

impl KernelRegisters {
    /// All registers are zero.
    pub fn zero() -> (res: Self)
        ensures
            res == (KernelRegisters {
                rax: 0,
                rbx: 0,
                rcx: 0,
                rdx: 0,
                rsi: 0,
                rdi: 0,
                rsp: 0,
                rbp: 0,
                r8: 0,
                r9: 0,
                r10: 0,
                r11: 0,
                r12: 0,
                r13: 0,
                r14: 0,
                r15: 0,
                rflags: 0,
            }),
    {
        KernelRegisters {
            rax: 0,
            rbx: 0,
            rcx: 0,
            rdx: 0,
            rsi: 0,
            rdi: 0,
            rsp: 0,
            rbp: 0,
            r8: 0,
            r9: 0,
            r10: 0,
            r11: 0,
            r12: 0,
            r13: 0,
            r14: 0,
            r15: 0,
            rflags: 0,
        }
    }
}

/// A vector register.
#[derive(Clone, Copy, PartialEq, Eq, Structural, Debug)]
pub struct Ymm {
    /// The lower half.
    pub low: u128,
    /// The upper half.
    pub high: u128,
}

/// The registers of user space.
#[derive(Clone, Copy, Debug)]
pub struct UserspaceRegisters {
    pub rax: u64,
    pub rbx: u64,
    pub rdx: u64,
    pub rsi: u64,
    pub rdi: u64,
    pub rsp: u64,
    pub rbp: u64,
    pub r8: u64,
    pub r9: u64,
    pub r10: u64,
    pub r12: u64,
    pub r13: u64,
    pub r14: u64,
    pub r15: u64,
    pub rip: u64,
    pub rflags: u64,
    pub fs_base: u64,
    pub ymm: [Ymm; 16],
    pub mxcsr: u64,
}

impl UserspaceRegisters {
    /// The values that registers have when a program starts: all are zero but the control register
    /// for vector instructions.
    pub open spec fn is_default(self) -> bool {
        &&& self.rax == 0 && self.rbx == 0 && self.rdx == 0 && self.rsi == 0 && self.rdi == 0
        &&& self.rsp == 0 && self.rbp == 0 && self.r8 == 0 && self.r9 == 0 && self.r10 == 0
        &&& self.r12 == 0 && self.r13 == 0 && self.r14 == 0 && self.r15 == 0 && self.rip == 0
        &&& self.rflags == 0 && self.fs_base == 0
        &&& forall|i: int| 0 <= i < 16 ==> #[trigger] self.ymm@[i] == (Ymm { low: 0, high: 0 })
        &&& self.mxcsr == 0x1f80
    }

    /// The values that registers have when a program starts.
    pub fn default() -> (res: Self)
        ensures
            res.is_default(),
    {
        let zero = Ymm { low: 0, high: 0 };
        UserspaceRegisters {
            rax: 0,
            rbx: 0,
            rdx: 0,
            rsi: 0,
            rdi: 0,
            rsp: 0,
            rbp: 0,
            r8: 0,
            r9: 0,
            r10: 0,
            r12: 0,
            r13: 0,
            r14: 0,
            r15: 0,
            rip: 0,
            rflags: 0,
            fs_base: 0,
            ymm: [zero; 16],
            mxcsr: 0x1f80,
        }
    }
}

/// A set of signals.
#[derive(Clone, Copy, PartialEq, Eq, Structural, Debug)]
pub struct Sigset {
    /// The signals as bits.
    pub bits: u64,
}

impl Sigset {
    /// Adds signals.
    pub fn bitor_assign(&mut self, rhs: Self)
        ensures
            final(self).bits == old(self).bits | rhs.bits,
    {
        self.bits = self.bits | rhs.bits;
    }

    /// Keeps signals.
    pub fn bitand_assign(&mut self, rhs: Self)
        ensures
            final(self).bits == old(self).bits & rhs.bits,
    {
        self.bits = self.bits & rhs.bits;
    }

    /// All other signals.
    pub fn not(self) -> (res: Self)
        ensures
            res.bits == !self.bits,
    {
        Sigset { bits: !self.bits }
    }
}

/// What happens when a signal is delivered.
#[derive(Clone, Copy, PartialEq, Eq, Structural, Debug)]
pub struct Sigaction {
    pub sa_handler_or_sigaction: u64,
    pub sa_mask: Sigset,
    pub flags: u64,
    pub sa_restorer: u64,
}

/// What happens by default.
pub open spec fn default_action() -> Sigaction {
    Sigaction {
        sa_handler_or_sigaction: 0,
        sa_mask: Sigset { bits: 0 },
        flags: 0,
        sa_restorer: 0,
    }
}

impl Sigaction {
    /// What happens by default.
    pub fn default() -> (res: Self)
        ensures
            res == default_action(),
    {
        Sigaction {
            sa_handler_or_sigaction: 0,
            sa_mask: Sigset { bits: 0 },
            flags: 0,
            sa_restorer: 0,
        }
    }
}

/// How a stack for signals is used.
#[derive(Clone, Copy, PartialEq, Eq, Structural, Debug)]
pub struct StackFlags {
    /// The flags as bits.
    pub bits: u32,
}

/// The stack is in use.
pub const ONSTACK: u32 = 1;

/// The stack isn't to be used.
pub const DISABLE: u32 = 2;

/// The stack isn't to be used again once it's in use.
pub const AUTODISARM: u32 = 0x8000_0000;

/// A stack for signals.
#[derive(Clone, Copy, PartialEq, Eq, Structural, Debug)]
pub struct Stack {
    pub ss_sp: u64,
    pub flags: StackFlags,
    pub size: u64,
}

/// The state of a thread that can change.
pub struct ThreadState {
    /// The address space.
    pub virtual_memory: u64,
    /// The registers.
    pub registers: UserspaceRegisters,
    /// The signals that aren't delivered.
    pub sigmask: Sigset,
    /// What happens when signals are delivered.
    pub sigaction: [Sigaction; 64],
    /// The stack for signals.
    pub sigaltstack: Option<Stack>,
    /// Where the number of the thread is erased when it exits.
    pub clear_child_tid: u64,
    /// The current working directory.
    pub cwd: Vec<u8>,
    /// The thread that waits until this one has exited or runs another program.
    pub vfork_done: Option<u64>,
}

/// A thread.
pub struct Thread {
    /// The number of the thread.
    pub tid: u32,
    /// The number of the thread that created it.
    pub parent: Option<u32>,
    /// The process.
    pub process: u64,
    /// The table of file descriptors.
    pub fdtable: u64,
    /// The children that have exited and their exit statuses.
    pub dead_children: VecDeque<(u32, u8)>,
    /// The exit status.
    pub exit_status: Option<u8>,
    /// The state that can change.
    pub state: ThreadState,
}

/// What a thread does next.
#[derive(Clone, Copy, PartialEq, Eq, Structural, Debug)]
pub enum NextStep {
    /// The thread has exited.
    Stop,
    /// The thread exits.
    Exit(u8),
    /// The thread goes on.
    Run,
}

impl Thread {
    /// The thread has just been created.
    pub open spec fn is_new(self) -> bool {
        &&& self.dead_children@.len() == 0
        &&& self.exit_status is None
        &&& self.state.sigmask.bits == 0
        &&& forall|i: int| 0 <= i < 64 ==> #[trigger] self.state.sigaction@[i] == default_action()
        &&& self.state.sigaltstack is None
    }

    /// Creates a thread.
    fn new(
        tid: u32,
        parent: Option<u32>,
        process: u64,
        virtual_memory: u64,
        fdtable: u64,
        cwd: Vec<u8>,
        vfork_done: Option<u64>,
    ) -> (res: Self)
        ensures
            res.is_new(),
            res.tid == tid,
            res.parent == parent,
            res.process == process,
            res.fdtable == fdtable,
            res.state.virtual_memory == virtual_memory,
            res.state.registers.is_default(),
            res.state.clear_child_tid == 0,
            res.state.cwd == cwd,
            res.state.vfork_done == vfork_done,
    {
        Thread {
            tid,
            parent,
            process,
            fdtable,
            dead_children: VecDeque::new(),
            exit_status: None,
            state: ThreadState {
                virtual_memory,
                registers: UserspaceRegisters::default(),
                sigmask: Sigset { bits: 0 },
                sigaction: [Sigaction::default(); 64],
                sigaltstack: None,
                clear_child_tid: 0,
                cwd,
                vfork_done,
            },
        }
    }

    /// Creates a thread without a parent in the root directory.
    pub fn empty(tid: u32, process: u64, virtual_memory: u64, fdtable: u64) -> (res: Self)
        ensures
            res.is_new(),
            res.tid == tid,
            res.parent is None,
            res.process == process,
            res.fdtable == fdtable,
            res.state.virtual_memory == virtual_memory,
            res.state.registers.is_default(),
            res.state.clear_child_tid == 0,
            res.state.cwd@ == seq![47u8],
            res.state.vfork_done is None,
    {
        let mut cwd: Vec<u8> = Vec::new();
        cwd.push(47);
        assert(cwd@ =~= seq![47u8]);
        Thread::new(tid, None, process, virtual_memory, fdtable, cwd, None)
    }

    /// Registers a thread if it could be created. Creating one that can't be created uses up a
    /// number.
    pub fn spawn(
        created: Result<&Thread, Error>,
        handle: u64,
        threads: &mut Threads,
        counter: &mut u32,
    ) -> (res: Result<u32, Error>)
        ensures
            match created {
                Ok(thread) => {
                    &&& res == Ok::<u32, Error>(thread.tid)
                    &&& final(threads)@ == old(threads)@.insert(thread.tid, handle)
                    &&& *final(counter) == *old(counter)
                },
                Err(err) => {
                    &&& res == Err::<u32, Error>(err)
                    &&& final(threads)@ == old(threads)@
                    &&& *final(counter) == if *old(counter) == u32::MAX {
                        0
                    } else {
                        *old(counter) + 1
                    }
                },
            },
    {
        match created {
            Ok(thread) => Ok(threads.add(thread.tid, handle)),
            Err(err) => {
                new_tid(counter);
                Err(err)
            },
        }
    }

    /// The number of the thread.
    pub fn tid(&self) -> (res: u32)
        ensures
            res == self.tid,
    {
        self.tid
    }

    /// The process.
    pub fn process(&self) -> (res: u64)
        ensures
            res == self.process,
    {
        self.process
    }

    /// Decides what the thread does next, given the exit status of its process.
    pub fn run(&self, process_exit_status: Option<u8>) -> (res: NextStep)
        ensures
            res == if self.exit_status is Some {
                NextStep::Stop
            } else {
                match process_exit_status {
                    Some(status) => NextStep::Exit(status),
                    None => NextStep::Run,
                }
            },
    {
        match self.exit_status {
            Some(_) => NextStep::Stop,
            None => match process_exit_status {
                Some(status) => NextStep::Exit(status),
                None => NextStep::Run,
            },
        }
    }

    /// Takes the child that has been dead the longest.
    pub fn try_wait_for_child_death(&mut self) -> (res: Option<(u32, u8)>)
        ensures
            *final(self) == (Thread { dead_children: final(self).dead_children, ..*old(self) }),
            old(self).dead_children@.len() == 0 ==> res is None
                && final(self).dead_children@ == old(self).dead_children@,
            old(self).dead_children@.len() > 0 ==> res == Some(old(self).dead_children@[0])
                && final(self).dead_children@ == old(self).dead_children@.skip(1),
    {
        let res: Option<(u32, u8)> = self.dead_children.pop_front();
        assert(old(self).dead_children@.len() > 0 ==> self.dead_children@ =~= old(
            self,
        ).dead_children@.skip(1));
        res
    }

    /// Records that a child has exited.
    pub fn add_child_death(&mut self, tid: u32, status: u8)
        ensures
            *final(self) == (Thread { dead_children: final(self).dead_children, ..*old(self) }),
            final(self).dead_children@ == old(self).dead_children@.push((tid, status)),
    {
        self.dead_children.push_back((tid, status));
    }

    /// The exit status, if the thread has exited.
    pub fn wait_for_exit(&self) -> (res: Option<u8>)
        ensures
            res == self.exit_status,
    {
        self.exit_status
    }
}

/// Exclusive access to a thread.
pub struct ThreadGuard<'a> {
    /// The thread.
    pub thread: &'a mut Thread,
}

/// The registers that a new thread starts out with.
pub open spec fn child_registers(
    parent: UserspaceRegisters,
    stack: u64,
    tls: Option<u64>,
) -> UserspaceRegisters {
    UserspaceRegisters {
        rax: 0,
        rsp: if stack == 0 {
            parent.rsp
        } else {
            stack
        },
        fs_base: match tls {
            Some(tls) => tls,
            None => parent.fs_base,
        },
        ..parent
    }
}

/// A new thread goes on where its parent is, with the registers of its parent. Only the result of the
/// system call is zero, and the stack and the thread-local storage are its own if it got some.
pub proof fn law_child_goes_on_like_parent(
    parent: UserspaceRegisters,
    stack: u64,
    tls: Option<u64>,
    i: int,
)
    requires
        0 <= i < 16,
    ensures
        ({
            let child = child_registers(parent, stack, tls);
            &&& child.rax == 0
            &&& stack == 0 ==> child.rsp == parent.rsp
            &&& stack != 0 ==> child.rsp == stack
            &&& tls is None ==> child.fs_base == parent.fs_base
            &&& tls is Some ==> child.fs_base == tls->0
            &&& child.rip == parent.rip && child.rflags == parent.rflags
            &&& child.rbx == parent.rbx && child.rbp == parent.rbp
            &&& child.rdx == parent.rdx && child.rsi == parent.rsi && child.rdi == parent.rdi
            &&& child.r8 == parent.r8 && child.r9 == parent.r9 && child.r10 == parent.r10
            &&& child.r12 == parent.r12 && child.r13 == parent.r13
            &&& child.r14 == parent.r14 && child.r15 == parent.r15
            &&& child.ymm@[i].low == parent.ymm@[i].low && child.ymm@[i].high == parent.ymm@[i].high
            &&& child.mxcsr == parent.mxcsr
        }),
{
}

/// A program that has been loaded into an address space.
#[derive(Clone, Copy, Debug)]
pub struct LoadedProgram {
    /// The address space.
    pub virtual_memory: u64,
    /// The end of the stack, if one could be created.
    pub stack: Result<VirtAddr, Error>,
    /// Where the program starts, if it could be loaded.
    pub entry: Result<u64, Error>,
}

/// The outcome of switching a thread to a program. The thread stays as it is if the program couldn't
/// be loaded.
pub open spec fn started(
    thread: Thread,
    program: LoadedProgram,
    new: Thread,
    res: Result<(), Error>,
) -> bool {
    match (program.stack, program.entry) {
        (Err(err), _) => res == Err::<(), Error>(err) && new == thread,
        (Ok(_), Err(err)) => res == Err::<(), Error>(err) && new == thread,
        (Ok(stack), Ok(entry)) => {
            let virtual_memory = program.virtual_memory;
            let registers = new.state.registers;
            &&& res == Ok::<(), Error>(())
            &&& new == (Thread {
                state: ThreadState { virtual_memory, registers, ..thread.state },
                ..thread
            })
            &&& registers.rsp == stack@
            &&& registers.rip == entry
            &&& (UserspaceRegisters { rsp: 0, rip: 0, ..registers }).is_default()
        },
    }
}

/// The size of the stack that a program starts out with.
pub const STACK_SIZE: u64 = 0x2_0000;

impl<'a> ThreadGuard<'a> {
    /// The thread.
    pub open spec fn guarded(self) -> Thread {
        *self.thread
    }

    /// Creates a thread that goes on where this one is.
    pub fn clone(
        &self,
        new_tid: u32,
        new_process: Option<u64>,
        new_virtual_memory: Option<u64>,
        fdtable: u64,
        stack: VirtAddr,
        new_clear_child_tid: Option<VirtAddr>,
        new_tls: Option<u64>,
        vfork_done: Option<u64>,
    ) -> (res: Thread)
        ensures
            res.is_new(),
            res.tid == new_tid,
            res.parent == Some(self.guarded().tid),
            res.process == (match new_process {
                Some(process) => process,
                None => self.guarded().process,
            }),
            res.fdtable == fdtable,
            res.state.virtual_memory == (match new_virtual_memory {
                Some(virtual_memory) => virtual_memory,
                None => self.guarded().state.virtual_memory,
            }),
            res.state.registers == child_registers(
                self.guarded().state.registers,
                stack@,
                new_tls,
            ),
            ({
                let child = res.state.registers;
                let parent = self.guarded().state.registers;
                &&& child.rax == 0
                &&& child.rsp == if stack@ != 0 {
                    stack@
                } else {
                    parent.rsp
                }
                &&& child.fs_base == if new_tls is Some {
                    new_tls->0
                } else {
                    parent.fs_base
                }
                &&& child.rip == parent.rip && child.rflags == parent.rflags
                &&& child.rbx == parent.rbx && child.rbp == parent.rbp
                &&& child.rdx == parent.rdx && child.rsi == parent.rsi && child.rdi == parent.rdi
                &&& child.r8 == parent.r8 && child.r9 == parent.r9 && child.r10 == parent.r10
                &&& child.r12 == parent.r12 && child.r13 == parent.r13
                &&& child.r14 == parent.r14 && child.r15 == parent.r15
                &&& child.ymm == parent.ymm && child.mxcsr == parent.mxcsr
            }),
            res.state.clear_child_tid == (match new_clear_child_tid {
                Some(addr) => addr@,
                None => 0,
            }),
            res.state.cwd@ == self.guarded().state.cwd@,
            res.state.vfork_done == vfork_done,
    {
        let process: u64 = match new_process {
            Some(process) => process,
            None => self.thread.process,
        };
        let virtual_memory: u64 = match new_virtual_memory {
            Some(virtual_memory) => virtual_memory,
            None => self.thread.state.virtual_memory,
        };
        let cwd: Vec<u8> = self.thread.state.cwd.clone();
        assert(cwd@ =~= self.thread.state.cwd@);
        let mut thread: Thread = Thread::new(
            new_tid,
            Some(self.thread.tid),
            process,
            virtual_memory,
            fdtable,
            cwd,
            vfork_done,
        );
        match new_clear_child_tid {
            Some(clear_child_tid) => {
                thread.state.clear_child_tid = clear_child_tid.as_u64();
            },
            None => {},
        }
        // Copy all registers.
        thread.state.registers = self.thread.state.registers;
        // Set the return value to 0 for the new thread.
        thread.state.registers.rax = 0;
        // Switch to a new stack if one is provided.
        if !stack.is_null() {
            thread.state.registers.rsp = stack.as_u64();
        }
        match new_tls {
            Some(tls) => {
                thread.state.registers.fs_base = tls;
            },
            None => {},
        }
        thread
    }

    /// The number of the thread that created this one.
    pub fn parent(&self) -> (res: Option<u32>)
        ensures
            res == self.guarded().parent,
    {
        self.thread.parent
    }

    /// The number of the thread.
    pub fn tid(&self) -> (res: u32)
        ensures
            res == self.guarded().tid,
    {
        self.thread.tid
    }

    /// The process.
    pub fn process(&self) -> (res: u64)
        ensures
            res == self.guarded().process,
    {
        self.thread.process
    }

    /// The address space.
    pub fn virtual_memory(&self) -> (res: u64)
        ensures
            res == self.guarded().state.virtual_memory,
    {
        self.thread.state.virtual_memory
    }

    /// The table of file descriptors.
    pub fn fdtable(&self) -> (res: u64)
        ensures
            res == self.guarded().fdtable,
    {
        self.thread.fdtable
    }

    /// Switches the thread to the program in a file if the file has been found and may be executed.
    /// The program is only loaded in that case. Loading fails if the file can't be read. The thread
    /// stays as it is if the program couldn't be started.
    pub fn execve<F>(&mut self, executable: Result<bool, Error>, load: F) -> (res: Result<(), Error>)
        where F: FnOnce() -> Result<LoadedProgram, Error>
        requires
            executable == Ok::<bool, Error>(true) ==> call_requires(load, ()),
        ensures
            *final(final(self).thread) == *final(old(self).thread),
            match executable {
                Err(err) => res == Err::<(), Error>(err) && *final(self).thread == *old(self).thread,
                Ok(false) => res == Err::<(), Error>(Error::Acces) && *final(self).thread == *old(
                    self,
                ).thread,
                Ok(true) => exists|loaded: Result<LoadedProgram, Error>| #[trigger]
                    call_ensures(load, (), loaded) && match loaded {
                        Err(err) => res == Err::<(), Error>(err) && *final(self).thread == *old(
                            self,
                        ).thread,
                        Ok(program) => started(
                            *old(self).thread,
                            program,
                            *final(self).thread,
                            res,
                        ),
                    },
            },
    {
        match executable {
            Ok(executable) => {
                if !executable {
                    return Err(Error::Acces);
                }
            },
            Err(err) => {
                return Err(err);
            },
        }
        let loaded: Result<LoadedProgram, Error> = load();
        match loaded {
            Ok(program) => self.start_executable(
                program.virtual_memory,
                program.stack,
                program.entry,
            ),
            Err(err) => Err(err),
        }
    }

    /// Switches the thread to a program that has been loaded into an address space. The thread
    /// stays as it is if the program couldn't be loaded.
    pub fn start_executable(
        &mut self,
        virtual_memory: u64,
        stack: Result<VirtAddr, Error>,
        entry: Result<u64, Error>,
    ) -> (res: Result<(), Error>)
        ensures
            *final(final(self).thread) == *final(old(self).thread),
            started(
                *old(self).thread,
                (LoadedProgram { virtual_memory, stack, entry }),
                *final(self).thread,
                res,
            ),
    {
        let stack: VirtAddr = match stack {
            Ok(stack) => stack,
            Err(err) => {
                return Err(err);
            },
        };
        let entry: u64 = match entry {
            Ok(entry) => entry,
            Err(err) => {
                return Err(err);
            },
        };
        // Success! Commit the new state to the thread.
        let mut registers: UserspaceRegisters = UserspaceRegisters::default();
        registers.rsp = stack.as_u64();
        registers.rip = entry;
        self.thread.state.virtual_memory = virtual_memory;
        self.thread.state.registers = registers;
        Ok(())
    }

    /// Records that the thread has exited.
    pub fn set_exit_status(&mut self, status: u8)
        requires
            old(self).thread.exit_status is None,
        ensures
            *final(final(self).thread) == *final(old(self).thread),
            *final(self).thread == (Thread { exit_status: Some(status), ..*old(self).thread }),
    {
        self.thread.exit_status = Some(status);
    }
}

/// Creates the stack that a program starts out with. Returns the end of the stack.
pub fn create_stack(vm: &mut ActiveVirtualMemory<'_>) -> (res: Result<VirtAddr, Error>)
    requires
        old(vm).wf(),
    ensures
        final(vm).wf(),
        final(vm).same_space(*old(vm)),
        *final(final(vm).virtual_memory) == *final(old(vm).virtual_memory),
        res matches Err(err) ==> err == Error::NoMem && final(vm).memory() == old(vm).memory(),
        res matches Ok(end) ==> exists|start: VirtAddr| #[trigger]
            request::is_free_address(old(vm).memory(), start, STACK_SIZE) && end@ == start@
                + STACK_SIZE && request::placed(
                old(vm).memory(),
                start,
                STACK_SIZE,
                (MemoryPermissions { execute: false, write: true, read: true }),
                Backing::Stack,
                final(vm).memory(),
                Ok(start),
            ),
{
    match vm.allocate_stack(None, STACK_SIZE) {
        Ok(start) => {
            let end: VirtAddr = VirtAddr::new(start.as_u64() + STACK_SIZE);
            Ok(end)
        },
        Err(err) => Err(err),
    }
}

/// A program starts with the stack pointer and the instruction pointer that it has been loaded with. All
/// other registers are zero but the control register for vector instructions. The rest of the thread
/// stays the same.
pub proof fn law_program_starts(
    thread: Thread,
    program: LoadedProgram,
    new: Thread,
    res: Result<(), Error>,
    i: int,
)
    requires
        started(thread, program, new, res),
        0 <= i < 16,
    ensures
        program.stack is Ok && program.entry is Ok ==> {
            let registers = new.state.registers;
            &&& res is Ok
            &&& new.state.virtual_memory == program.virtual_memory
            &&& registers.rsp == program.stack->Ok_0@
            &&& registers.rip == program.entry->Ok_0
            &&& registers.rax == 0 && registers.rbx == 0 && registers.rdx == 0
            &&& registers.rsi == 0 && registers.rdi == 0 && registers.rbp == 0
            &&& registers.r8 == 0 && registers.r9 == 0 && registers.r10 == 0
            &&& registers.r12 == 0 && registers.r13 == 0 && registers.r14 == 0
            &&& registers.r15 == 0 && registers.rflags == 0 && registers.fs_base == 0
            &&& registers.ymm@[i].low == 0 && registers.ymm@[i].high == 0
            &&& registers.mxcsr == 0x1f80
            &&& new.tid == thread.tid && new.parent == thread.parent
            &&& new.process == thread.process && new.fdtable == thread.fdtable
            &&& new.dead_children == thread.dead_children && new.exit_status == thread.exit_status
            &&& new.state.sigmask == thread.state.sigmask
            &&& new.state.sigaction == thread.state.sigaction
            &&& new.state.sigaltstack == thread.state.sigaltstack
            &&& new.state.clear_child_tid == thread.state.clear_child_tid
            &&& new.state.cwd == thread.state.cwd && new.state.vfork_done == thread.state.vfork_done
        },
        program.stack matches Err(err) ==> res == Err::<(), Error>(err) && new == thread,
        program.stack is Ok ==> (program.entry matches Err(err) ==> res == Err::<(), Error>(err)
            && new == thread),
{
    let registers = new.state.registers;
    if program.stack is Ok && program.entry is Ok {
        let rest = UserspaceRegisters { rsp: 0, rip: 0, ..registers };
        assert(rest.ymm@[i] == (Ymm { low: 0, high: 0 }));
    }
}

/// A new thread hasn't exited, has no dead children, no stack for signals and doesn't hold signals back.
/// All signals do what they do by default.
pub proof fn law_new_threads(thread: Thread, i: int)
    requires
        thread.is_new(),
        0 <= i < 64,
    ensures
        thread.exit_status is None,
        thread.dead_children@.len() == 0,
        thread.state.sigaltstack is None,
        thread.state.sigmask.bits == 0,
        ({
            let action = thread.state.sigaction@[i];
            &&& action.sa_handler_or_sigaction == 0
            &&& action.sa_mask.bits == 0
            &&& action.flags == 0
            &&& action.sa_restorer == 0
        }),
{
}

/// A stack has 128 kilobytes.
pub proof fn law_stack_size()
    ensures
        STACK_SIZE == 128 * 1024,
{
}

} // verus!
