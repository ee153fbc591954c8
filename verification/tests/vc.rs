use mushroom::supervisor::exception::vc::{
    cpuid, extended_state, handle_vmm_communication_exception, Cause, StackFrame,
};

fn frame(exception_code: u64) -> StackFrame {
    StackFrame {
        r15: 15,
        r14: 14,
        r13: 13,
        r12: 12,
        r11: 11,
        r10: 10,
        r9: 9,
        r8: 8,
        rdi: 1,
        rsi: 2,
        rbp: 3,
        rbx: 4,
        rdx: 5,
        rcx: 0x9_0000_0007,
        rax: 0x8_8000_0001,
        exception_code,
        rip: 0x1000,
        cs: 8,
        rflags: 2,
        rsp: 0x2000,
        ss: 16,
    }
}

#[test]
fn exceptions_have_causes() {
    let cause = handle_vmm_communication_exception(&frame(0x72));
    assert_eq!(cause, Cause::Cpuid(0x8000_0001, 7));
    assert_eq!(handle_vmm_communication_exception(&frame(0x404)), Cause::Unvalidated);
    assert_eq!(handle_vmm_communication_exception(&frame(0x7b)), Cause::Unknown(0x7b));
}

#[test]
fn the_result_is_written_back() {
    let mut changed = frame(0x72);
    cpuid(&mut changed, 1, 2, 3, 0xffff_ffff);
    let expected =
        StackFrame { rax: 1, rbx: 2, rcx: 3, rdx: 0xffff_ffff, rip: 0x1002, ..frame(0x72) };
    assert_eq!(changed, expected);
}

#[test]
fn extended_state_is_used_if_enabled() {
    assert_eq!(extended_state(true, 7, 8), (7, 8));
    assert_eq!(extended_state(false, 7, 8), (0, 0));
}
