use mushroom::addr::{PhysFrame, VirtAddr};
use mushroom::error::Error;
use mushroom::user::process::memory::{ActiveVirtualMemory, VirtualMemory};
use mushroom::user::process::thread::{
    create_stack, new_tid, KernelRegisters, LoadedProgram, NextStep, Sigaction, Sigset, Thread, ThreadGuard,
    Threads, UserspaceRegisters, Ymm, STACK_SIZE,
};

#[test]
fn threads_are_numbered() {
    let mut counter = 1;
    assert_eq!(new_tid(&mut counter), 1);
    assert_eq!(new_tid(&mut counter), 2);
    counter = u32::MAX;
    assert_eq!(new_tid(&mut counter), u32::MAX);
    assert_eq!(counter, 0);
}

#[test]
fn threads_are_found_by_their_number() {
    let mut threads = Threads::new();
    assert_eq!(threads.by_id(1), None);
    assert_eq!(threads.add(1, 100), 1);
    assert_eq!(threads.add(2, 200), 2);
    assert_eq!(threads.by_id(1), Some(100));
    threads.add(1, 101);
    assert_eq!(threads.by_id(1), Some(101));
    threads.remove(1);
    assert_eq!(threads.by_id(1), None);
    assert_eq!(threads.by_id(2), Some(200));
}

#[test]
fn registers_have_initial_values() {
    let registers = UserspaceRegisters::default();
    assert_eq!(registers.mxcsr, 0x1f80);
    assert_eq!(registers.rip, 0);
    assert_eq!(registers.ymm, [Ymm { low: 0, high: 0 }; 16]);
    assert_eq!(KernelRegisters::zero().rflags, 0);
}

#[test]
fn signal_sets_are_combined() {
    let mut set = Sigset { bits: 0b1100 };
    set.bitor_assign(Sigset { bits: 0b0101 });
    assert_eq!(set.bits, 0b1101);
    set.bitand_assign(Sigset { bits: 0b0100 }.not());
    assert_eq!(set.bits, 0b1001);
}

#[test]
fn new_threads_are_empty() {
    let thread = Thread::empty(7, 1, 2, 3);
    assert_eq!(thread.tid(), 7);
    assert_eq!(thread.process(), 1);
    assert_eq!(thread.fdtable, 3);
    assert_eq!(thread.parent, None);
    assert_eq!(thread.state.virtual_memory, 2);
    assert_eq!(thread.state.cwd, b"/");
    assert_eq!(thread.state.sigaction, [Sigaction::default(); 64]);
    assert_eq!(thread.state.sigmask.bits, 0);
    assert_eq!(thread.state.vfork_done, None);
    assert_eq!(thread.wait_for_exit(), None);
}

#[test]
fn threads_are_registered_if_they_could_be_created() {
    let mut threads = Threads::new();
    let mut counter = 5;
    let thread = Thread::empty(4, 1, 2, 3);
    assert_eq!(Thread::spawn(Ok(&thread), 40, &mut threads, &mut counter), Ok(4));
    assert_eq!(threads.by_id(4), Some(40));
    assert_eq!(counter, 5);
    let res = Thread::spawn(Err(Error::NoMem), 41, &mut threads, &mut counter);
    assert_eq!(res, Err(Error::NoMem));
    assert_eq!(counter, 6);
    assert_eq!(threads.by_id(5), None);
}

#[test]
fn child_threads_go_on_where_their_parents_are() {
    let mut parent = Thread::empty(7, 1, 2, 3);
    parent.state.registers.rax = 56;
    parent.state.registers.rbx = 57;
    parent.state.registers.rsp = 0x7000;
    parent.state.registers.fs_base = 0x8000;
    parent.state.cwd = b"/tmp".to_vec();
    parent.state.sigmask = Sigset { bits: 1 };
    let guard = ThreadGuard { thread: &mut parent };

    let child = guard.clone(8, None, None, 30, VirtAddr::new(0), None, None, None);
    assert_eq!(child.tid, 8);
    assert_eq!(child.parent, Some(7));
    assert_eq!(child.process, 1);
    assert_eq!(child.fdtable, 30);
    assert_eq!(child.state.virtual_memory, 2);
    assert_eq!(child.state.registers.rax, 0);
    assert_eq!(child.state.registers.rbx, 57);
    assert_eq!(child.state.registers.rsp, 0x7000);
    assert_eq!(child.state.registers.fs_base, 0x8000);
    assert_eq!(child.state.clear_child_tid, 0);
    assert_eq!(child.state.cwd, b"/tmp");
    assert_eq!(child.state.sigmask.bits, 0);
}

#[test]
fn child_threads_can_differ_from_their_parents() {
    let mut parent = Thread::empty(7, 1, 2, 3);
    let guard = ThreadGuard { thread: &mut parent };
    let child = guard.clone(
        8,
        Some(10),
        Some(20),
        30,
        VirtAddr::new(0x9000),
        Some(VirtAddr::new(0xa000)),
        Some(0xb000),
        Some(99),
    );
    assert_eq!(child.process, 10);
    assert_eq!(child.state.virtual_memory, 20);
    assert_eq!(child.state.registers.rsp, 0x9000);
    assert_eq!(child.state.clear_child_tid, 0xa000);
    assert_eq!(child.state.registers.fs_base, 0xb000);
    assert_eq!(child.state.vfork_done, Some(99));
    assert_eq!(guard.parent(), None);
    assert_eq!(guard.tid(), 7);
    assert_eq!(guard.process(), 1);
    assert_eq!(guard.virtual_memory(), 2);
    assert_eq!(guard.fdtable(), 3);
}

#[test]
fn threads_stop_when_they_or_their_process_exit() {
    let mut thread = Thread::empty(7, 1, 2, 3);
    assert_eq!(thread.run(None), NextStep::Run);
    assert_eq!(thread.run(Some(3)), NextStep::Exit(3));
    ThreadGuard { thread: &mut thread }.set_exit_status(4);
    assert_eq!(thread.run(None), NextStep::Stop);
    assert_eq!(thread.run(Some(3)), NextStep::Stop);
    assert_eq!(thread.wait_for_exit(), Some(4));
}

#[test]
fn dead_children_are_reported_in_order() {
    let mut thread = Thread::empty(7, 1, 2, 3);
    assert_eq!(thread.try_wait_for_child_death(), None);
    thread.add_child_death(8, 1);
    thread.add_child_death(9, 0);
    assert_eq!(thread.try_wait_for_child_death(), Some((8, 1)));
    assert_eq!(thread.try_wait_for_child_death(), Some((9, 0)));
    assert_eq!(thread.try_wait_for_child_death(), None);
}

#[test]
fn programs_are_started() {
    let mut thread = Thread::empty(7, 1, 2, 3);
    thread.state.registers.rax = 5;
    let mut guard = ThreadGuard { thread: &mut thread };
    let stack = VirtAddr::new(0x7000);
    assert_eq!(guard.start_executable(20, Err(Error::NoMem), Ok(1)), Err(Error::NoMem));
    assert_eq!(guard.start_executable(20, Ok(stack), Err(Error::Fault)), Err(Error::Fault));
    assert_eq!(guard.virtual_memory(), 2);
    assert_eq!(guard.thread.state.registers.rax, 5);

    assert_eq!(guard.start_executable(20, Ok(stack), Ok(0x40_0000)), Ok(()));
    assert_eq!(guard.virtual_memory(), 20);
    assert_eq!(guard.thread.state.registers.rsp, 0x7000);
    assert_eq!(guard.thread.state.registers.rip, 0x40_0000);
    assert_eq!(guard.thread.state.registers.rax, 0);
    assert_eq!(guard.thread.state.registers.mxcsr, 0x1f80);
}

#[test]
fn only_executable_files_are_loaded() {
    let mut thread = Thread::empty(7, 1, 2, 3);
    let mut guard = ThreadGuard { thread: &mut thread };
    assert_eq!(guard.execve(Err(Error::NoEnt), || unreachable!()), Err(Error::NoEnt));
    assert_eq!(guard.execve(Ok(false), || unreachable!()), Err(Error::Acces));
    assert_eq!(guard.execve(Ok(true), || Err(Error::Inval)), Err(Error::Inval));
    let stack = Ok(VirtAddr::new(0x7000));
    let program = LoadedProgram { virtual_memory: 20, stack, entry: Err(Error::Fault) };
    assert_eq!(guard.execve(Ok(true), || Ok(program)), Err(Error::Fault));
    assert_eq!(guard.virtual_memory(), 2);

    let program = LoadedProgram { virtual_memory: 20, stack, entry: Ok(0x40_0000) };
    assert_eq!(guard.execve(Ok(true), || Ok(program)), Ok(()));
    assert_eq!(guard.virtual_memory(), 20);
    assert_eq!(guard.thread.state.registers.rsp, 0x7000);
    assert_eq!(guard.thread.state.registers.rip, 0x40_0000);
}

#[test]
fn stacks_end_at_the_returned_address() {
    let mut counter = 1;
    let mut space = VirtualMemory::new(&mut counter, PhysFrame::from_start_address(0).unwrap());
    let mut vm = ActiveVirtualMemory { virtual_memory: &mut space };
    match create_stack(&mut vm) {
        Ok(end) => {
            let start = VirtAddr::new(end.as_u64() - STACK_SIZE);
            assert_eq!(vm.write(start, &[1; STACK_SIZE as usize]), Ok(()));
            assert_eq!(vm.write(end, &[1]), Err(Error::Fault));
        }
        // The processor has no random numbers.
        Err(err) => assert_eq!(err, Error::NoMem),
    }
}
