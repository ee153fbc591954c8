//! Access to frames that aren't mapped.
use vstd::prelude::*;

use crate::addr::{self, Page, PhysFrame, VirtAddr, PAGE_SIZE};
use crate::memory::pagetable::{PageTableFlags, PAGE_LEN};

verus! {

/// The first frame that is always mapped.
pub const FAST_START: u64 = 0x0000_0200_0000_0000;

/// The last byte that is always mapped.
pub const FAST_END_INCLUSIVE: u64 = 0x0000_02ff_ffff_ffff;

/// Where the first frame that is always mapped is mapped.
pub const FAST_BASE: u64 = 0xffff_8080_0000_0000;

/// Where a frame is mapped if it's always mapped.
pub open spec fn fast_mapping(frame: u64) -> Option<u64> {
    if FAST_START <= frame <= FAST_END_INCLUSIVE {
        Some((frame - FAST_START + FAST_BASE) as u64)
    } else {
        None
    }
}

/// Returns where a frame is mapped if it's always mapped.
pub fn get_fast_mapping(frame: PhysFrame) -> (res: Option<u64>)
    ensures
        res == fast_mapping(frame@),
        res matches Some(address) ==> address % PAGE_SIZE == 0,
{
    let start: u64 = frame.start_address();
    if FAST_START <= start && start <= FAST_END_INCLUSIVE {
        Some(start - FAST_START + FAST_BASE)
    } else {
        None
    }
}

/// Fills a frame with zeros.
pub fn zero_frame(frame: &mut [u8])
    requires
        old(frame)@.len() == PAGE_SIZE,
    ensures
        final(frame)@ == Seq::new(PAGE_SIZE as nat, |i: int| 0u8),
{
    let mut i: usize = 0;
    while i < PAGE_LEN
        invariant
            i <= PAGE_LEN,
            frame@.len() == PAGE_SIZE,
            forall|j: int| 0 <= j < i ==> frame@[j] == 0,
        decreases PAGE_LEN - i,
    {
        frame[i] = 0;
        i = i + 1;
    }
    assert(frame@ =~= Seq::new(PAGE_SIZE as nat, |i: int| 0u8));
}

/// Copies bytes into a frame.
pub fn copy_into_frame(frame: &mut [u8], bytes: &[u8])
    requires
        old(frame)@.len() == PAGE_SIZE,
        bytes@.len() == PAGE_SIZE,
    ensures
        final(frame)@ == bytes@,
{
    let mut i: usize = 0;
    while i < PAGE_LEN
        invariant
            i <= PAGE_LEN,
            frame@.len() == PAGE_SIZE,
            bytes@.len() == PAGE_SIZE,
            forall|j: int| 0 <= j < i ==> frame@[j] == bytes@[j],
        decreases PAGE_LEN - i,
    {
        frame[i] = bytes[i];
        i = i + 1;
    }
    assert(frame@ =~= bytes@);
}

/// How the source of a copy is accessed.
#[derive(Clone, Copy, PartialEq, Eq, Structural, Debug)]
pub enum Load {
    /// All accesses are aligned.
    Aligned,
    /// Accesses may be unaligned.
    Unaligned,
}

/// The size of a single access.
pub const ACCESS_SIZE: u64 = 32;

/// Decides how the source of a copy of a page is accessed and how often. The destination has to be
/// aligned.
pub fn copy_into_page_direct(src: u64, dst: u64) -> (res: (Load, u64))
    requires
        dst % ACCESS_SIZE == 0,
    ensures
        res.0 == if src % ACCESS_SIZE == 0 {
            Load::Aligned
        } else {
            Load::Unaligned
        },
        res.1 * ACCESS_SIZE == PAGE_SIZE,
{
    let load: Load = if src % ACCESS_SIZE == 0 {
        Load::Aligned
    } else {
        Load::Unaligned
    };
    (load, PAGE_SIZE / ACCESS_SIZE)
}

/// The pages at which frames can be mapped temporarily. Each processor has one.
pub struct TemporaryPages {
    /// The first page that isn't used.
    pub next: Page,
    /// How many pages aren't used.
    pub left: u64,
}

/// A frame that is mapped temporarily.
#[derive(Clone, Copy, PartialEq, Eq, Structural, Debug)]
pub struct TemporaryMapping {
    /// The page.
    pub page: Page,
    /// The frame.
    pub frame: PhysFrame,
    /// The attributes.
    pub flags: PageTableFlags,
}

/// Whether the pages are in one half of the address space.
pub open spec fn pages_exist(next: u64, left: int) -> bool {
    next + left * PAGE_SIZE < addr::LOWER_HALF_END || (addr::UPPER_HALF_START <= next && next
        + left * PAGE_SIZE <= u64::MAX)
}

/// The frame is mapped writable at the processor's page. If the processor didn't have one, it got
/// the first one that wasn't used.
pub open spec fn mapped_temporarily(
    frame: PhysFrame,
    per_cpu: Option<Page>,
    pages: TemporaryPages,
    mapping: TemporaryMapping,
    new_per_cpu: Option<Page>,
    new_pages: TemporaryPages,
) -> bool {
    &&& mapping.frame == frame
    &&& mapping.flags == (PageTableFlags { writable: true, local: true, ..PageTableFlags::none() })
    &&& new_per_cpu == Some(mapping.page)
    &&& match per_cpu {
        Some(page) => mapping.page == page && new_pages == pages,
        None => {
            &&& mapping.page == pages.next
            &&& new_pages.next@ == pages.next@ + PAGE_SIZE
            &&& new_pages.left == pages.left - 1
        },
    }
}

impl TemporaryMapping {
    /// Plans how a frame is mapped at a processor's page. If the processor doesn't have one yet, it
    /// gets the first one that isn't used.
    pub fn new(frame: PhysFrame, per_cpu: &mut Option<Page>, pages: &mut TemporaryPages) -> (res: Self)
        requires
            pages_exist(old(pages).next@, old(pages).left as int),
            *old(per_cpu) is None ==> old(pages).left > 0,
        ensures
            mapped_temporarily(
                frame,
                *old(per_cpu),
                *old(pages),
                res,
                *final(per_cpu),
                *final(pages),
            ),
            pages_exist(final(pages).next@, final(pages).left as int),
    {
        let page: Page = match *per_cpu {
            Some(page) => page,
            None => {
                let page: Page = pages.next;
                let start: u64 = page.start();
                pages.next = Page::containing_address(VirtAddr::new(start + PAGE_SIZE));
                pages.left = pages.left - 1;
                page
            },
        };
        *per_cpu = Some(page);
        let mut flags: PageTableFlags = PageTableFlags::empty();
        flags.writable = true;
        flags.local = true;
        TemporaryMapping { page, frame, flags }
    }

    /// The address that the frame is mapped at.
    pub fn as_mut_ptr(&self) -> (res: u64)
        ensures
            res == self.page@,
    {
        self.page.start()
    }
}

/// How the memory of a frame is reached.
#[derive(Clone, Copy, PartialEq, Eq, Structural, Debug)]
pub enum Access {
    /// The frame is always mapped at an address.
    Direct(u64),
    /// The frame has to be mapped temporarily.
    Temporary(TemporaryMapping),
}

/// Decides how the memory of a frame is reached: directly if it's always mapped, and through a
/// temporary mapping otherwise.
pub fn access_frame(frame: PhysFrame, per_cpu: &mut Option<Page>, pages: &mut TemporaryPages) -> (res:
    Access)
    requires
        fast_mapping(frame@) is None ==> pages_exist(old(pages).next@, old(pages).left as int) && (
        *old(per_cpu) is None ==> old(pages).left > 0),
    ensures
        match fast_mapping(frame@) {
            Some(address) => {
                &&& res == Access::Direct(address)
                &&& *final(per_cpu) == *old(per_cpu)
                &&& *final(pages) == *old(pages)
            },
            None => {
                &&& res matches Access::Temporary(mapping)
                &&& mapped_temporarily(
                    frame,
                    *old(per_cpu),
                    *old(pages),
                    mapping,
                    *final(per_cpu),
                    *final(pages),
                )
            },
        },
{
    match get_fast_mapping(frame) {
        Some(address) => Access::Direct(address),
        None => Access::Temporary(TemporaryMapping::new(frame, per_cpu, pages)),
    }
}

/// The frames that are always mapped are mapped one after the other.
pub proof fn law_fast_mapping(frame: u64)
    ensures
        fast_mapping(frame) is Some <==> 0x200_0000_0000 <= frame <= 0x2ff_ffff_ffff,
        fast_mapping(frame) matches Some(address) ==> address - frame == 0xffff_8080_0000_0000
            - 0x200_0000_0000,
{
}

/// A frame is mapped temporarily at the page of the processor, writable but not for user space and not
/// on other processors. A processor without a page gets the first page that isn't used, which is used
/// from then on.
pub proof fn law_temporary_mapping(
    frame: PhysFrame,
    per_cpu: Option<Page>,
    pages: TemporaryPages,
    mapping: TemporaryMapping,
    new_per_cpu: Option<Page>,
    new_pages: TemporaryPages,
)
    requires
        mapped_temporarily(frame, per_cpu, pages, mapping, new_per_cpu, new_pages),
    ensures
        mapping.frame@ == frame@,
        mapping.flags.writable && mapping.flags.local,
        !mapping.flags.user && !mapping.flags.executable,
        !mapping.flags.cow && !mapping.flags.global,
        new_per_cpu == Some(mapping.page),
        per_cpu is Some ==> mapping.page == per_cpu->0 && new_pages.next@ == pages.next@
            && new_pages.left == pages.left,
        per_cpu is None ==> mapping.page == pages.next && new_pages.next@ == pages.next@ + 4096
            && new_pages.left == pages.left - 1,
{
}

} // verus!
