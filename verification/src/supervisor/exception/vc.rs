//! Exceptions that are raised when the hypervisor would have to be involved.
use vstd::prelude::*;

verus! {

/// The code for the `cpuid` instruction.
pub const VMEXIT_CPUID: u64 = 0x72;

/// The code for an access to memory that isn't validated.
pub const VMEXIT_UNVALIDATED: u64 = 0x404;

/// The registers at the time of the exception.
#[derive(Clone, Copy, PartialEq, Eq, Structural, Debug)]
pub struct StackFrame {
    pub r15: u64,
    pub r14: u64,
    pub r13: u64,
    pub r12: u64,
    pub r11: u64,
    pub r10: u64,
    pub r9: u64,
    pub r8: u64,
    pub rdi: u64,
    pub rsi: u64,
    pub rbp: u64,
    pub rbx: u64,
    pub rdx: u64,
    pub rcx: u64,
    pub rax: u64,
    pub exception_code: u64,
    pub rip: u64,
    pub cs: u16,
    pub rflags: u64,
    pub rsp: u64,
    pub ss: u16,
}

/// What an exception is about.
#[derive(Clone, Copy, PartialEq, Eq, Structural, Debug)]
pub enum Cause {
    /// The `cpuid` instruction has been executed with these values in `eax` and `ecx`.
    Cpuid(u32, u32),
    /// Memory that isn't validated has been accessed.
    Unvalidated,
    /// The code isn't known.
    Unknown(u64),
}

/// The lower half of a register.
pub open spec fn lower_half(value: u64) -> u32 {
    (value % 0x1_0000_0000) as u32
}

/// What an exception is about.
pub open spec fn cause(frame: StackFrame) -> Cause {
    if frame.exception_code == VMEXIT_CPUID {
        Cause::Cpuid(lower_half(frame.rax), lower_half(frame.rcx))
    } else if frame.exception_code == VMEXIT_UNVALIDATED {
        Cause::Unvalidated
    } else {
        Cause::Unknown(frame.exception_code)
    }
}

/// Finds out what an exception is about.
pub fn handle_vmm_communication_exception(frame: &StackFrame) -> (res: Cause)
    ensures
        res == cause(*frame),
{
    if frame.exception_code == VMEXIT_CPUID {
        // Get the input.
        Cause::Cpuid(
            (frame.rax % 0x1_0000_0000) as u32,
            (frame.rcx % 0x1_0000_0000) as u32,
        )
    } else if frame.exception_code == VMEXIT_UNVALIDATED {
        Cause::Unvalidated
    } else {
        Cause::Unknown(frame.exception_code)
    }
}

/// The extended state components that the result of `cpuid` depends on, given whether extended
/// state is enabled and what the registers for it hold.
pub fn extended_state(osxsave: bool, xcr0: u64, xss: u64) -> (res: (u64, u64))
    ensures
        res == if osxsave {
            (xcr0, xss)
        } else {
            (0u64, 0u64)
        },
{
    if osxsave {
        (xcr0, xss)
    } else {
        // FIXME: Figure out if 0 are reasonable values here.
        (0, 0)
    }
}

/// Writes the result of the `cpuid` instruction back and skips the instruction.
pub fn cpuid(frame: &mut StackFrame, eax: u32, ebx: u32, ecx: u32, edx: u32)
    requires
        old(frame).rip + 2 <= u64::MAX,
    ensures
        *final(frame) == (StackFrame {
            rax: eax as u64,
            rbx: ebx as u64,
            rcx: ecx as u64,
            rdx: edx as u64,
            rip: (old(frame).rip + 2) as u64,
            ..*old(frame)
        }),
{
    // Write the results back.
    frame.rax = eax as u64;
    frame.rbx = ebx as u64;
    frame.rcx = ecx as u64;
    frame.rdx = edx as u64;
    // FIXME: Ensure that the opcode was a two byte cpuid instruction.
    frame.rip = frame.rip + 2;
}

/// What an exception is about depends on its code. The input of the `cpuid` instruction is the lower 32
/// bits of two registers.
pub proof fn law_causes(frame: StackFrame)
    ensures
        frame.exception_code == 0x72 ==> (cause(frame) matches Cause::Cpuid(eax, ecx) && eax
            == frame.rax & 0xffff_ffff && ecx == frame.rcx & 0xffff_ffff),
        frame.exception_code == 0x404 ==> cause(frame) is Unvalidated,
        frame.exception_code != 0x72 && frame.exception_code != 0x404 ==> cause(frame)
            == Cause::Unknown(frame.exception_code),
{
    let a = frame.rax;
    let c = frame.rcx;
    assert(a & 0xffff_ffff == a % 0x1_0000_0000 && c & 0xffff_ffff == c % 0x1_0000_0000)
        by (bit_vector);
}

} // verus!
