use mushroom::error::Error;
use mushroom::user::process::limits::{
    CurrentLimit, CurrentNoFileLimit, CurrentStackLimit, Limits, NoFile, RLimit, Resource, Stack,
};
use mushroom::user::process::syscall::traits::{
    Abi, ProfilingFuture, SyscallArg, SyscallArgs, SyscallHandlers, SyscallTimes,
};

fn call(abi: Abi, no: u64) -> SyscallArgs {
    SyscallArgs { abi, no, args: [0; 6] }
}

#[test]
fn arguments_are_parsed() {
    assert_eq!(<u32 as SyscallArg>::parse(5, Abi::Amd64), Ok(5));
    assert_eq!(<u32 as SyscallArg>::parse(0xffff_ffff, Abi::I386), Ok(u32::MAX));
    assert_eq!(<u32 as SyscallArg>::parse(0x1_0000_0000, Abi::Amd64), Err(Error::Inval));
}

#[test]
fn arguments_are_displayed() {
    assert_eq!(<u32 as SyscallArg>::display(120, Abi::Amd64), b"120");
    assert_eq!(
        <u32 as SyscallArg>::display(4294967296, Abi::Amd64),
        b"4294967296 (out of bounds)"
    );
}

#[test]
fn handlers_are_registered() {
    let mut handlers = SyscallHandlers::new();
    assert_eq!(handlers.execute(call(Abi::Amd64, 0)), Err(Error::NoSys));
    handlers.register(Some(3), Some(0), 100);
    handlers.register(None, Some(326), 200);
    handlers.register(Some(384), None, 300);
    assert_eq!(handlers.execute(call(Abi::Amd64, 0)), Ok(100));
    assert_eq!(handlers.execute(call(Abi::I386, 3)), Ok(100));
    assert_eq!(handlers.execute(call(Abi::I386, 0)), Err(Error::NoSys));
    assert_eq!(handlers.execute(call(Abi::Amd64, 326)), Ok(200));
    assert_eq!(handlers.execute(call(Abi::Amd64, 327)), Err(Error::NoSys));
    assert_eq!(handlers.execute(call(Abi::I386, 384)), Ok(300));
    assert_eq!(handlers.execute(call(Abi::I386, 385)), Err(Error::NoSys));
    assert_eq!(handlers.execute(call(Abi::I386, u64::MAX)), Err(Error::NoSys));
    handlers.register(None, Some(0), 101);
    assert_eq!(handlers.execute(call(Abi::Amd64, 0)), Ok(101));
    assert_eq!(handlers.execute(call(Abi::I386, 3)), Ok(100));
}

#[test]
fn times_are_recorded() {
    let mut times = SyscallTimes::new();
    times.record(5, 10);
    times.record(5, 20);
    assert_eq!(times.times[5], 30);
    assert_eq!(times.counts[5], 2);
    assert_eq!(times.times[6], 0);
    times.record(5, u64::MAX);
    assert_eq!(times.times[5], 29);
}

#[test]
fn durations_are_summed() {
    let mut future = ProfilingFuture::new("future");
    assert_eq!(future.finish_poll::<u8>(10, 15, None), None);
    assert_eq!(future.finish_poll(20, 27, Some(3)), Some((3, 12)));
    assert_eq!(future.future, "future");
}

#[test]
fn limits_start_with_defaults() {
    let limits = Limits::default();
    assert_eq!(*limits.index(Resource::Stack), RLimit { rlim_cur: 0x80_0000, rlim_max: 0x80_0000 });
    assert_eq!(*limits.index(Resource::NoFile), RLimit { rlim_cur: 1024, rlim_max: 65536 });
    assert_eq!(CurrentStackLimit::default().get(), 0x80_0000);
    assert_eq!(CurrentNoFileLimit::default().get(), 1024);
}

#[test]
fn limits_are_changed() {
    let mut limits = Limits::default();
    limits.index_mut(Resource::NoFile).rlim_cur = 7;
    assert_eq!(limits.index(Resource::NoFile).rlim_cur, 7);
    assert_eq!(limits.index(Resource::NoFile).rlim_max, 65536);
    assert_eq!(limits.index(Resource::Stack).rlim_cur, 0x80_0000);
    let limit = CurrentLimit::<NoFile>::extract_from_limits(&limits);
    assert_eq!(limit.clone().get(), 7);
    assert_eq!(limit.get(), 7);
    assert_eq!(CurrentLimit::<Stack>::extract_from_limits(&limits).get(), 0x80_0000);
    assert_eq!(CurrentLimit::<Stack>::new(3).get(), 3);
}
