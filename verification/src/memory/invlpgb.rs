//! Flushing translations on all processors.
use bit_field::BitField;
use vstd::prelude::*;

use crate::addr::{self, Page};

verus! {

/// `bit_field::BitField::set_bits` for the lower 16 bits: replaces them and keeps all others.
#[verifier::external_body]
fn set_call_code(input: u64, code: u64) -> (res: u64)
    requires
        code <= 0xffff,
    ensures
        res == input - input % 0x1_0000 + code,
{
    let mut input = input;
    input.set_bits(0..=15, code);
    input
}

/// `bit_field::BitField::set_bit` for a single bit: sets the bit and keeps all others.
#[verifier::external_body]
fn set_bit(input: u64, bit: usize) -> (res: u64)
    requires
        bit < 64,
    ensures
        res == input | (1u64 << bit),
{
    let mut input = input;
    input.set_bit(bit, true);
    input
}

/// `bit_field::BitField::get_bits` for the lower 16 bits: returns them as a number.
#[verifier::external_body]
fn status_code(result: u64) -> (res: u64)
    ensures
        res == result % 0x1_0000,
{
    result.get_bits(0..=15)
}

/// Which translations are flushed.
#[derive(Clone, Copy, PartialEq, Eq, Structural, Debug)]
pub struct HvCallFlushVirtualAddressSpaceFlags {
    /// The flags as bits.
    pub bits: u64,
}

/// Translations are flushed on all processors.
pub const HV_FLUSH_ALL_PROCESSORS: u64 = 1;

/// The translations of all address spaces are flushed.
pub const HV_FLUSH_ALL_VIRTUAL_ADDRESS_SPACES: u64 = 2;

/// Translations that are part of all address spaces are kept.
pub const HV_FLUSH_NON_GLOBAL_MAPPINGS_ONLY: u64 = 4;

/// A request to the hypervisor.
#[derive(Clone, Copy, PartialEq, Eq, Structural, Debug)]
pub struct Hypercall {
    /// Which request it is.
    pub input: u64,
    /// Which translations are flushed.
    pub flags: HvCallFlushVirtualAddressSpaceFlags,
}

/// How translations are flushed.
#[derive(Clone, Copy, PartialEq, Eq, Structural, Debug)]
pub enum Flush {
    /// The processor flushes the translations of an address space.
    Pcid(u16),
    /// The processor flushes the translations of the pages from the first up to the second one.
    Pages {
        /// The first page.
        start: Page,
        /// The page after the last one.
        end: Page,
        /// Whether translations that are part of all address spaces are flushed.
        global: bool,
    },
    /// The hypervisor flushes all translations.
    Hypervisor(Hypercall),
}

/// The request to flush all translations on all processors.
pub open spec fn flush_all_request() -> Hypercall {
    Hypercall {
        input: 0x1_0002,
        flags: HvCallFlushVirtualAddressSpaceFlags { bits: 3 },
    }
}

/// Returns the request to flush all translations on all processors.
fn hv_flush_all() -> (res: Hypercall)
    ensures
        res == flush_all_request(),
{
    // The call code for flushing address spaces.
    let input: u64 = set_call_code(0, 0x0002);
    // The parameters are passed in registers.
    assert(2u64 | (1u64 << 16usize) == 0x1_0002) by (bit_vector);
    assert(1u64 | 2u64 == 3) by (bit_vector);
    let input: u64 = set_bit(input, 16);
    let flags = HvCallFlushVirtualAddressSpaceFlags {
        bits: HV_FLUSH_ALL_PROCESSORS | HV_FLUSH_ALL_VIRTUAL_ADDRESS_SPACES,
    };
    Hypercall { input, flags }
}

/// Returns whether the hypervisor did what it was requested to do.
pub fn hypercall_succeeded(result: u64) -> (res: bool)
    ensures
        res == (result % 0x1_0000 == 0),
{
    status_code(result) == 0
}

/// Flushes translations with the processor's help if it is able to.
pub struct InvlpgbCompat {
    /// Whether the processor can flush translations on all processors.
    pub supported: bool,
}

impl InvlpgbCompat {
    /// Creates a flusher for a processor.
    pub fn new(supported: bool) -> (res: Self)
        ensures
            res.supported == supported,
    {
        InvlpgbCompat { supported }
    }

    /// How the translations of an address space are flushed.
    pub fn flush_pcid(&self, pcid: u16) -> (res: Flush)
        ensures
            res == if self.supported {
                Flush::Pcid(pcid)
            } else {
                Flush::Hypervisor(flush_all_request())
            },
    {
        if self.supported {
            Flush::Pcid(pcid)
        } else {
            Flush::Hypervisor(hv_flush_all())
        }
    }

    /// How the translations of a page are flushed. If the processor flushes them, the page can't be the
    /// last one.
    pub fn flush_page(&self, page: Page, global: bool) -> (res: Flush)
        requires
            self.supported ==> page@ < addr::LAST_PAGE,
        ensures
            self.supported ==> {
                &&& res matches Flush::Pages { start, end, global: flushed }
                &&& start == page
                &&& Some(end@) == addr::forward(page@, 0x1000)
                &&& flushed == global
            },
            !self.supported ==> res == Flush::Hypervisor(flush_all_request()),
    {
        if self.supported {
            proof {
                use_type_invariant(&page);
            }
            let end: Page = page.forward_checked(1).unwrap();
            Flush::Pages { start: page, end, global }
        } else {
            Flush::Hypervisor(hv_flush_all())
        }
    }
}

/// The request to flush all translations has the call code for flushing address spaces, passes its
/// parameters in registers, and is about all processors and all address spaces. It doesn't keep
/// translations that are part of all address spaces.
pub proof fn law_flush_all_request()
    ensures
        flush_all_request().input & 0xffff == 2,
        flush_all_request().input & !0xffffu64 == 0x1_0000,
        flush_all_request().flags.bits & 1 == 1,
        flush_all_request().flags.bits & 2 == 2,
        flush_all_request().flags.bits & !3u64 == 0,
{
    assert(0x1_0002u64 & 0xffff == 2 && 0x1_0002u64 & !0xffffu64 == 0x1_0000 && 3u64 & 1 == 1 && 3u64
        & 2 == 2 && 3u64 & !3u64 == 0) by (bit_vector);
}

} // verus!
