//! Virtual addresses, pages and physical frames.
//!
//! Virtual addresses are 48 bits wide. The upper 16 bits of an address repeat bit 47, which
//! leaves two halves of usable addresses with a hole between them.
use vstd::prelude::*;

verus! {

/// The size of a page in bytes.
pub const PAGE_SIZE: u64 = 0x1000;

/// The first address past the lower half.
pub const LOWER_HALF_END: u64 = 0x8000_0000_0000;

/// The first address of the upper half.
pub const UPPER_HALF_START: u64 = 0xffff_8000_0000_0000;

/// The first number that doesn't fit into 48 bits.
pub const ADDRESS_SPACE_SIZE: u64 = 0x1_0000_0000_0000;

/// What sign extension adds to an address in the second half of the 48 bit range.
pub const SIGN_EXTENSION: u64 = 0xffff_0000_0000_0000;

/// The last page of the address space.
pub const LAST_PAGE: u64 = 0xffff_ffff_ffff_f000;

/// The last page of the lower half.
pub const LOWER_HALF_LAST_PAGE: u64 = 0x7fff_ffff_f000;

/// The first number that isn't a physical address.
pub const PHYS_ADDR_END: u64 = 0x10_0000_0000_0000;

/// Whether bits 48 to 63 of the address repeat bit 47.
pub open spec fn is_canonical(addr: int) -> bool {
    0 <= addr < LOWER_HALF_END || UPPER_HALF_START <= addr <= u64::MAX
}

/// The canonical address that is meant by a number: the number itself if it's canonical, its
/// sign extension if it has 48 bits, and nothing otherwise.
pub open spec fn canonical_form(addr: int) -> Option<u64> {
    if is_canonical(addr) {
        Some(addr as u64)
    } else if LOWER_HALF_END <= addr < ADDRESS_SPACE_SIZE {
        Some((addr + SIGN_EXTENSION) as u64)
    } else {
        None
    }
}

/// The address that is `count` bytes after `addr` if the hole between the two halves is skipped.
pub open spec fn forward(addr: u64, count: int) -> Option<u64> {
    if addr < LOWER_HALF_END && addr + count >= LOWER_HALF_END {
        if addr + count < ADDRESS_SPACE_SIZE {
            Some((addr + count + SIGN_EXTENSION) as u64)
        } else {
            None
        }
    } else if addr + count <= u64::MAX {
        Some((addr + count) as u64)
    } else {
        None
    }
}

/// The start of the page that contains an address.
pub open spec fn page_of(addr: u64) -> u64 {
    (addr - addr % PAGE_SIZE) as u64
}

/// Whether a number is a power of two.
pub open spec fn is_power_of_two(n: u64) -> bool {
    n > 0 && n & ((n - 1) as u64) == 0
}

/// The page size is a power of two.
pub proof fn lemma_page_size_is_power_of_two()
    ensures
        is_power_of_two(PAGE_SIZE),
{
    assert(0x1000u64 & 0xfffu64 == 0) by (bit_vector);
}

/// `x86_64::VirtAddr::try_new`: accepts canonical addresses as they are, sign extends numbers
/// that have bit 47 but none of the upper 16 bits set, and rejects everything else.
#[verifier::external_body]
fn canonicalize(addr: u64) -> (res: Option<u64>)
    ensures
        res == canonical_form(addr as int),
{
    match x86_64::VirtAddr::try_new(addr) {
        Ok(addr) => Some(addr.as_u64()),
        Err(_) => None,
    }
}

/// `x86_64::align_down`: rounds down to a multiple of a power of two.
#[verifier::external_body]
pub(crate) fn align_down(addr: u64, align: u64) -> (res: u64)
    requires
        is_power_of_two(align),
    ensures
        res == addr - addr % align,
{
    x86_64::align_down(addr, align)
}

/// `x86_64::align_up`: rounds up to a multiple of a power of two. The result has to fit.
#[verifier::external_body]
pub(crate) fn align_up(addr: u64, align: u64) -> (res: u64)
    requires
        is_power_of_two(align),
        addr % align != 0 ==> addr - addr % align + align <= u64::MAX,
    ensures
        res == if addr % align == 0 {
            addr as int
        } else {
            addr - addr % align + align
        },
{
    x86_64::align_up(addr, align)
}

/// `x86_64::PhysAddr::try_new`: accepts numbers that have none of the upper 12 bits set.
#[verifier::external_body]
fn physical_address(addr: u64) -> (res: Option<u64>)
    ensures
        res == if addr < PHYS_ADDR_END {
            Some(addr)
        } else {
            None
        },
{
    match x86_64::PhysAddr::try_new(addr) {
        Ok(addr) => Some(addr.as_u64()),
        Err(_) => None,
    }
}

/// A canonical virtual address.
#[derive(Clone, Copy, PartialEq, Eq, Structural, Debug)]
pub struct VirtAddr {
    addr: u64,
}

impl View for VirtAddr {
    type V = u64;

    closed spec fn view(&self) -> u64 {
        self.addr
    }
}

impl VirtAddr {
    /// The address is canonical.
    #[verifier::type_invariant]
    pub open spec fn wf(self) -> bool {
        is_canonical(self@ as int)
    }

    /// Creates an address, sign extending it if necessary. The number has to mean an address.
    pub fn new(addr: u64) -> (res: Self)
        requires
            canonical_form(addr as int) is Some,
        ensures
            Some(res@) == canonical_form(addr as int),
            res.wf(),
    {
        let addr: u64 = canonicalize(addr).unwrap();
        Self { addr }
    }

    /// Creates an address if the number means one.
    pub fn try_new(addr: u64) -> (res: Option<Self>)
        ensures
            canonical_form(addr as int) == (match res {
                Some(res) => Some(res@),
                None => None,
            }),
            res matches Some(res) ==> res.wf(),
    {
        match canonicalize(addr) {
            Some(addr) => Some(Self { addr }),
            None => None,
        }
    }

    /// The address as a number.
    pub fn as_u64(self) -> (res: u64)
        ensures
            res == self@,
            self.wf(),
    {
        proof {
            use_type_invariant(&self);
        }
        self.addr
    }

    /// Whether the address is zero.
    pub fn is_null(self) -> (res: bool)
        ensures
            res == (self@ == 0),
    {
        self.addr == 0
    }

    /// Whether the address is the start of a page.
    pub fn is_page_aligned(self) -> (res: bool)
        ensures
            res == (self@ % PAGE_SIZE == 0),
    {
        proof {
            lemma_page_size_is_power_of_two();
        }
        align_down(self.addr, PAGE_SIZE) == self.addr
    }

    /// The offset of the address in its page.
    pub fn page_offset(self) -> (res: u64)
        ensures
            res == self@ % PAGE_SIZE,
            res < PAGE_SIZE,
    {
        self.addr % PAGE_SIZE
    }

    /// The address `count` bytes further, sign extending it if necessary. `None` if the sum
    /// doesn't mean an address.
    pub fn checked_add(self, count: u64) -> (res: Option<Self>)
        ensures
            canonical_form(self@ + count) == (match res {
                Some(res) => Some(res@),
                None => None,
            }),
            res matches Some(res) ==> res.wf(),
    {
        match self.addr.checked_add(count) {
            Some(addr) => Self::try_new(addr),
            None => None,
        }
    }

    /// The address `count` bytes further, skipping the hole between the halves. `None` past the
    /// end of the address space.
    pub fn forward_checked(self, count: u64) -> (res: Option<Self>)
        ensures
            forward(self@, count as int) == (match res {
                Some(res) => Some(res@),
                None => None,
            }),
            res matches Some(res) ==> res.wf(),
    {
        proof {
            use_type_invariant(&self);
        }
        if count > ADDRESS_SPACE_SIZE {
            return None;
        }
        match self.addr.checked_add(count) {
            Some(addr) => Self::try_new(addr),
            None => None,
        }
    }
}

/// A page of virtual memory.
#[derive(Clone, Copy, PartialEq, Eq, Structural, Debug)]
pub struct Page {
    start: u64,
}

impl View for Page {
    type V = u64;

    closed spec fn view(&self) -> u64 {
        self.start
    }
}

/// Whether an address is the start of a page.
pub open spec fn is_page(start: u64) -> bool {
    is_canonical(start as int) && start % PAGE_SIZE == 0
}

impl Page {
    /// The start of the page is canonical and aligned.
    #[verifier::type_invariant]
    pub open spec fn wf(self) -> bool {
        is_page(self@)
    }

    /// The page that contains an address.
    pub fn containing_address(addr: VirtAddr) -> (res: Self)
        ensures
            res@ == page_of(addr@),
            res.wf(),
    {
        proof {
            use_type_invariant(&addr);
            lemma_page_size_is_power_of_two();
        }
        Self { start: align_down(addr.as_u64(), PAGE_SIZE) }
    }

    /// The page that starts at an address, if one does.
    pub fn from_start_address(addr: VirtAddr) -> (res: Option<Self>)
        ensures
            res matches Some(res) ==> res@ == addr@ && res.wf(),
            res is Some <==> addr@ % PAGE_SIZE == 0,
    {
        if addr.is_page_aligned() {
            Some(Self::containing_address(addr))
        } else {
            None
        }
    }

    /// The first address of the page.
    pub fn start_address(self) -> (res: VirtAddr)
        ensures
            res@ == self@,
            self.wf(),
            res.wf(),
    {
        proof {
            use_type_invariant(&self);
        }
        VirtAddr { addr: self.start }
    }

    /// The first address of the page as a number.
    pub fn start(self) -> (res: u64)
        ensures
            res == self@,
            self.wf(),
    {
        proof {
            use_type_invariant(&self);
        }
        self.start
    }

    /// The page `count` pages further, sign extending it if necessary. `None` if the sum doesn't
    /// mean an address.
    pub fn checked_add(self, count: u64) -> (res: Option<Self>)
        ensures
            canonical_form(self@ + count * PAGE_SIZE) == (match res {
                Some(res) => Some(res@),
                None => None,
            }),
            res matches Some(res) ==> res.wf(),
    {
        proof {
            use_type_invariant(&self);
        }
        match count.checked_mul(PAGE_SIZE) {
            Some(bytes) => match self.start_address().checked_add(bytes) {
                Some(addr) => Some(Page { start: addr.as_u64() }),
                None => None,
            },
            None => None,
        }
    }

    /// The page `count` pages further, skipping the hole between the halves. `None` past the end
    /// of the address space.
    pub fn forward_checked(self, count: u64) -> (res: Option<Self>)
        ensures
            forward(self@, count * PAGE_SIZE) == (match res {
                Some(res) => Some(res@),
                None => None,
            }),
            res matches Some(res) ==> res.wf(),
    {
        proof {
            use_type_invariant(&self);
        }
        match count.checked_mul(PAGE_SIZE) {
            Some(bytes) => match self.start_address().forward_checked(bytes) {
                Some(addr) => Some(Page { start: addr.as_u64() }),
                None => None,
            },
            None => None,
        }
    }

    /// The number of pages between an earlier page and this one. Addresses in the hole between
    /// the two halves are counted.
    pub fn distance_from(self, earlier: Page) -> (res: u64)
        requires
            earlier@ <= self@,
        ensures
            res == (self@ - earlier@) / PAGE_SIZE as int,
            res * PAGE_SIZE == self@ - earlier@,
    {
        proof {
            use_type_invariant(&self);
            use_type_invariant(&earlier);
        }
        (self.start - earlier.start) / PAGE_SIZE
    }
}

/// A frame of physical memory.
#[derive(Clone, Copy, PartialEq, Eq, Structural, Debug)]
pub struct PhysFrame {
    start: u64,
}

impl View for PhysFrame {
    type V = u64;

    closed spec fn view(&self) -> u64 {
        self.start
    }
}

/// Whether a number is the physical address of a frame.
pub open spec fn is_frame(start: int) -> bool {
    0 <= start < PHYS_ADDR_END && start % PAGE_SIZE as int == 0
}

impl PhysFrame {
    /// The start of the frame is a physical address and aligned.
    #[verifier::type_invariant]
    pub open spec fn wf(self) -> bool {
        is_frame(self@ as int)
    }

    /// The frame that starts at a physical address, if one does.
    pub fn from_start_address(addr: u64) -> (res: Option<Self>)
        ensures
            res matches Some(res) ==> res@ == addr && res.wf(),
            res is Some <==> is_frame(addr as int),
    {
        proof {
            lemma_page_size_is_power_of_two();
        }
        match physical_address(addr) {
            Some(start) => {
                if align_down(start, PAGE_SIZE) == start {
                    Some(Self { start })
                } else {
                    None
                }
            },
            None => None,
        }
    }

    /// The physical address of the frame.
    pub fn start_address(self) -> (res: u64)
        ensures
            res == self@,
            self.wf(),
    {
        proof {
            use_type_invariant(&self);
        }
        self.start
    }
}

/// Going forward passes exactly as many addresses as asked for: if the addresses of both halves are
/// numbered consecutively, the number of the result is larger by the count. There is no result if
/// there aren't as many addresses left.
pub proof fn law_forward_counts_addresses(addr: u64, count: int)
    requires
        addr < 0x8000_0000_0000 || addr >= 0xffff_8000_0000_0000,
        0 <= count,
    ensures
        ({
            let hole = 0xffff_8000_0000_0000 - 0x8000_0000_0000;
            let number = if addr < 0x8000_0000_0000 {
                addr as int
            } else {
                addr - hole
            };
            match forward(addr, count) {
                Some(to) => if to < 0x8000_0000_0000 {
                    to == number + count
                } else {
                    to >= 0xffff_8000_0000_0000 && to - hole == number + count
                },
                None => number + count >= 0x1_0000_0000_0000,
            }
        }),
{
}

/// Numbers that mean an address mean themselves, or the number with the upper 16 bits set if those are
/// clear and bit 47 is set.
pub proof fn law_meaning_of_numbers(addr: u64)
    ensures
        ({
            let meant = canonical_form(addr as int);
            if addr < 0x8000_0000_0000 || addr >= 0xffff_8000_0000_0000 {
                meant == Some(addr)
            } else if addr < 0x1_0000_0000_0000 {
                meant == Some((addr + 0xffff_0000_0000_0000) as u64)
            } else {
                meant is None
            }
        }),
{
}

/// An address is in the page that contains it.
pub proof fn law_address_is_in_its_page(addr: u64)
    ensures
        page_of(addr) % 4096 == 0,
        page_of(addr) <= addr < page_of(addr) + 4096,
        is_page(addr) <==> addr % 4096 == 0 && (addr < 0x8000_0000_0000 || addr
            >= 0xffff_8000_0000_0000),
        is_frame(addr as int) <==> addr % 4096 == 0 && addr < 0x10_0000_0000_0000,
{
}

} // verus!
